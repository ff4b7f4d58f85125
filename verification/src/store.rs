//! The persistent store, modeled as explicit rows.
//!
//! A [`Store`] is the in-memory image of the engine's relational tables:
//! commit nodes, parent links, content-addressed blobs, per-commit file
//! associations, and the head pointer.  Callers load the rows, run engine
//! operations on the value, and persist the rows back; the engine itself
//! never touches the disk.

use vstd::prelude::*;

use crate::error::WorkSpaceError;
use crate::snapshot::blob_id_spec;
use crate::text::copy_bytes;
use crate::text::str_eq_exec;
use crate::text::str_lt;
use crate::types::RepoState;

verus! {

/// One commit row.
#[derive(Debug, Clone)]
pub struct NodeRecord {
    pub id: String,
    pub message: String,
    pub created_at_unix_ms: i64,
}

pub struct NodeView {
    pub id: Seq<char>,
    pub message: Seq<char>,
    pub created_at_unix_ms: int,
}

impl View for NodeRecord {
    type V = NodeView;

    open spec fn view(&self) -> NodeView {
        NodeView {
            id: self.id@,
            message: self.message@,
            created_at_unix_ms: self.created_at_unix_ms as int,
        }
    }
}

/// One parent link row: `node_id`'s parent at position `ord`.
#[derive(Debug, Clone)]
pub struct ParentLink {
    pub node_id: String,
    pub parent_id: String,
    pub ord: i32,
}

pub struct ParentLinkView {
    pub node_id: Seq<char>,
    pub parent_id: Seq<char>,
    pub ord: int,
}

impl View for ParentLink {
    type V = ParentLinkView;

    open spec fn view(&self) -> ParentLinkView {
        ParentLinkView { node_id: self.node_id@, parent_id: self.parent_id@, ord: self.ord as int }
    }
}

/// One blob row: content addressed by the hash of its bytes.
#[derive(Debug, Clone)]
pub struct BlobRecord {
    pub id: String,
    pub content: Vec<u8>,
}

pub struct BlobView {
    pub id: Seq<char>,
    pub content: Seq<u8>,
}

impl View for BlobRecord {
    type V = BlobView;

    open spec fn view(&self) -> BlobView {
        BlobView { id: self.id@, content: self.content@ }
    }
}

/// One file association row: `(commit, path) -> blob`.
#[derive(Debug, Clone)]
pub struct FileLink {
    pub node_id: String,
    pub path: String,
    pub blob_id: String,
}

pub struct FileLinkView {
    pub node_id: Seq<char>,
    pub path: Seq<char>,
    pub blob_id: Seq<char>,
}

impl View for FileLink {
    type V = FileLinkView;

    open spec fn view(&self) -> FileLinkView {
        FileLinkView { node_id: self.node_id@, path: self.path@, blob_id: self.blob_id@ }
    }
}

/// The whole store.
#[derive(Debug)]
pub struct Store {
    pub nodes: Vec<NodeRecord>,
    pub parents: Vec<ParentLink>,
    pub blobs: Vec<BlobRecord>,
    pub node_files: Vec<FileLink>,
    pub head: Option<String>,
}

pub struct StoreView {
    pub nodes: Seq<NodeView>,
    pub parents: Seq<ParentLinkView>,
    pub blobs: Seq<BlobView>,
    pub node_files: Seq<FileLinkView>,
    pub head: Option<Seq<char>>,
}

impl View for Store {
    type V = StoreView;

    open spec fn view(&self) -> StoreView {
        StoreView {
            nodes: self.nodes@.map_values(|n: NodeRecord| n@),
            parents: self.parents@.map_values(|p: ParentLink| p@),
            blobs: self.blobs@.map_values(|b: BlobRecord| b@),
            node_files: self.node_files@.map_values(|f: FileLink| f@),
            head: match self.head {
                Some(ref h) => Some(h@),
                None => None,
            },
        }
    }
}

/// The content of the first blob with the given id, if any.
pub open spec fn blob_lookup(blobs: Seq<BlobView>, id: Seq<char>) -> Option<Seq<u8>>
    decreases blobs.len(),
{
    if blobs.len() == 0 {
        None
    } else if blobs[0].id == id {
        Some(blobs[0].content)
    } else {
        blob_lookup(blobs.drop_first(), id)
    }
}

/// The file associations of one commit, in stored order.
pub open spec fn links_filter(nf: Seq<FileLinkView>, id: Seq<char>) -> Seq<FileLinkView>
    decreases nf.len(),
{
    if nf.len() == 0 {
        Seq::empty()
    } else {
        let rest = links_filter(nf.drop_first(), id);
        if nf[0].node_id == id {
            seq![nf[0]] + rest
        } else {
            rest
        }
    }
}

/// The parent ids of one commit, in ordinal order under well-formedness.
pub open spec fn parent_ids_filter(ps: Seq<ParentLinkView>, id: Seq<char>) -> Seq<Seq<char>>
    decreases ps.len(),
{
    if ps.len() == 0 {
        Seq::empty()
    } else {
        let rest = parent_ids_filter(ps.drop_first(), id);
        if ps[0].node_id == id {
            seq![ps[0].parent_id] + rest
        } else {
            rest
        }
    }
}

impl StoreView {
    /// The store with no rows at all.
    pub open spec fn empty() -> StoreView {
        StoreView {
            nodes: Seq::empty(),
            parents: Seq::empty(),
            blobs: Seq::empty(),
            node_files: Seq::empty(),
            head: None,
        }
    }

    pub open spec fn has_node(self, id: Seq<char>) -> bool {
        exists|i: int| 0 <= i < self.nodes.len() && (#[trigger] self.nodes[i]).id == id
    }

    pub open spec fn has_blob(self, id: Seq<char>) -> bool {
        exists|i: int| 0 <= i < self.blobs.len() && (#[trigger] self.blobs[i]).id == id
    }

    /// The content stored under a blob id.
    pub open spec fn blob_content(self, id: Seq<char>) -> Option<Seq<u8>> {
        blob_lookup(self.blobs, id)
    }

    /// The file associations of one commit, in stored order.
    pub open spec fn links_for(self, id: Seq<char>) -> Seq<FileLinkView> {
        links_filter(self.node_files, id)
    }

    /// The parent ids of one commit, in ordinal order.
    pub open spec fn parents_for(self, id: Seq<char>) -> Seq<Seq<char>> {
        parent_ids_filter(self.parents, id)
    }

    /// Well-formedness: the row invariants that every store reachable
    /// through the engine maintains.
    ///
    /// Node and blob ids are unique; every blob id is the hash of the blob's
    /// own content; the head and every link row reference existing rows; one
    /// commit's file paths are strictly sorted, and its parent links are
    /// strictly ordered by ordinal.
    pub open spec fn wf(self) -> bool {
        &&& forall|i: int, j: int|
            0 <= i < j < self.nodes.len() ==> (#[trigger] self.nodes[i]).id != (
            #[trigger] self.nodes[j]).id
        &&& match self.head {
            Some(h) => self.has_node(h),
            None => true,
        }
        &&& forall|i: int, j: int|
            0 <= i < j < self.blobs.len() ==> (#[trigger] self.blobs[i]).id != (
            #[trigger] self.blobs[j]).id
        &&& forall|i: int|
            0 <= i < self.blobs.len() ==> (#[trigger] self.blobs[i]).id == blob_id_spec(
                self.blobs[i].content,
            )
        &&& forall|i: int|
            0 <= i < self.node_files.len() ==> self.has_node(
                (#[trigger] self.node_files[i]).node_id,
            ) && self.has_blob(self.node_files[i].blob_id)
        &&& forall|i: int, j: int|
            0 <= i < j < self.node_files.len() && (#[trigger] self.node_files[i]).node_id == (
            #[trigger] self.node_files[j]).node_id ==> str_lt(
                self.node_files[i].path,
                self.node_files[j].path,
            )
        &&& forall|i: int|
            0 <= i < self.parents.len() ==> self.has_node((#[trigger] self.parents[i]).node_id)
                && self.has_node(self.parents[i].parent_id)
        &&& forall|i: int, j: int|
            0 <= i < j < self.parents.len() && (#[trigger] self.parents[i]).node_id == (
            #[trigger] self.parents[j]).node_id ==> self.parents[i].ord < self.parents[j].ord
    }
}

/// Initializes a fresh repository store with no history.
pub fn init_repo() -> (s: Store)
    ensures
        s@ == StoreView::empty(),
        s@.wf(),
{
    let s = Store {
        nodes: Vec::new(),
        parents: Vec::new(),
        blobs: Vec::new(),
        node_files: Vec::new(),
        head: None,
    };
    proof {
        assert(s@.nodes =~= Seq::<NodeView>::empty());
        assert(s@.parents =~= Seq::<ParentLinkView>::empty());
        assert(s@.blobs =~= Seq::<BlobView>::empty());
        assert(s@.node_files =~= Seq::<FileLinkView>::empty());
    }
    s
}

/// Whether a commit with the given id exists.
pub fn node_exists(store: &Store, id: &str) -> (r: bool)
    ensures
        r == store@.has_node(id@),
{
    let n = store.nodes.len();
    let mut i: usize = 0;
    while i < n
        invariant
            i <= n,
            n == store@.nodes.len(),
            store@.nodes.len() == store.nodes@.len(),
            forall|k: int| 0 <= k < i ==> (#[trigger] store@.nodes[k]).id != id@,
        decreases n - i,
    {
        if str_eq_exec(store.nodes[i].id.as_str(), id) {
            proof {
                assert((#[trigger] store@.nodes[i as int]).id == id@);
            }
            return true;
        }
        i = i + 1;
    }
    false
}

/// The repository summary: head pointer and total node count.
pub fn repo_state(store: &Store) -> (r: RepoState)
    ensures
        r@.head == store@.head,
        r@.node_count == store@.nodes.len(),
{
    let head = match &store.head {
        Some(h) => Some(h.clone()),
        None => None,
    };
    RepoState { head, node_count: store.nodes.len() }
}

/// Collects the file associations of one commit, in stored order.
pub fn links_of(store: &Store, id: &str) -> (r: Vec<FileLink>)
    ensures
        r@.map_values(|l: FileLink| l@) == store@.links_for(id@),
{
    let n = store.node_files.len();
    let mut r: Vec<FileLink> = Vec::new();
    let mut j: usize = 0;
    proof {
        assert(store@.node_files.skip(0) =~= store@.node_files);
        assert(r@.map_values(|l: FileLink| l@) =~= Seq::<FileLinkView>::empty());
    }
    while j < n
        invariant
            j <= n,
            n == store@.node_files.len(),
            store.node_files@.len() == store@.node_files.len(),
            store@.links_for(id@) == r@.map_values(|l: FileLink| l@) + links_filter(
                store@.node_files.skip(j as int),
                id@,
            ),
        decreases n - j,
    {
        let ghost acc = r@;
        proof {
            assert(store@.node_files.skip(j as int)[0] == store@.node_files[j as int]);
            assert(store@.node_files.skip(j as int).drop_first() =~= store@.node_files.skip(
                j + 1 as int,
            ));
        }
        if str_eq_exec(store.node_files[j].node_id.as_str(), id) {
            let link = &store.node_files[j];
            r.push(
                FileLink {
                    node_id: link.node_id.clone(),
                    path: link.path.clone(),
                    blob_id: link.blob_id.clone(),
                },
            );
            proof {
                assert(r@.map_values(|l: FileLink| l@) =~= acc.map_values(|l: FileLink| l@)
                    + seq![store@.node_files[j as int]]);
                assert(acc.map_values(|l: FileLink| l@) + (seq![store@.node_files[j as int]]
                    + links_filter(store@.node_files.skip(j + 1 as int), id@)) =~= (acc.map_values(
                    |l: FileLink| l@,
                ) + seq![store@.node_files[j as int]]) + links_filter(
                    store@.node_files.skip(j + 1 as int),
                    id@,
                ));
            }
        }
        j = j + 1;
    }
    proof {
        assert(store@.node_files.skip(n as int) =~= Seq::<FileLinkView>::empty());
        assert(store@.links_for(id@) =~= r@.map_values(|l: FileLink| l@));
    }
    r
}

/// Fetches the content stored under a blob id that is known to exist.
pub(crate) fn blob_content_of(store: &Store, id: &str) -> (r: Vec<u8>)
    requires
        blob_lookup(store@.blobs, id@) is Some,
    ensures
        Some(r@) == blob_lookup(store@.blobs, id@),
{
    let n = store.blobs.len();
    let mut j: usize = 0;
    proof {
        assert(store@.blobs.skip(0) =~= store@.blobs);
    }
    while j < n
        invariant
            j <= n,
            n == store@.blobs.len(),
            store.blobs@.len() == store@.blobs.len(),
            blob_lookup(store@.blobs, id@) == blob_lookup(store@.blobs.skip(j as int), id@),
        decreases n - j,
    {
        proof {
            assert(store@.blobs.skip(j as int)[0] == store@.blobs[j as int]);
            assert(store@.blobs.skip(j as int).drop_first() =~= store@.blobs.skip(j + 1 as int));
        }
        if str_eq_exec(store.blobs[j].id.as_str(), id) {
            return copy_bytes(&store.blobs[j].content);
        }
        j = j + 1;
    }
    proof {
        assert(store@.blobs.skip(n as int) =~= Seq::<BlobView>::empty());
        assert(false);
    }
    unreached()
}

/// Every association selected for a commit is one of the store's rows.
pub proof fn lemma_links_filter_sub(nf: Seq<FileLinkView>, id: Seq<char>, i: int)
    requires
        0 <= i < links_filter(nf, id).len(),
    ensures
        nf.contains(links_filter(nf, id)[i]),
    decreases nf.len(),
{
    if nf.len() > 0 {
        let rest = links_filter(nf.drop_first(), id);
        if nf[0].node_id == id {
            if i == 0 {
                assert(nf.contains(nf[0]));
            } else {
                lemma_links_filter_sub(nf.drop_first(), id, i - 1);
                let w = choose|w: int|
                    0 <= w < nf.drop_first().len() && nf.drop_first()[w] == rest[i - 1];
                assert(nf[w + 1] == rest[i - 1]);
                assert(nf.contains(nf[w + 1]));
            }
        } else {
            lemma_links_filter_sub(nf.drop_first(), id, i);
            let w = choose|w: int|
                0 <= w < nf.drop_first().len() && nf.drop_first()[w] == rest[i];
            assert(nf[w + 1] == rest[i]);
            assert(nf.contains(nf[w + 1]));
        }
    }
}

/// Moves the head pointer to an existing commit, the final step of a
/// checkout; fails with `NotFound` and changes nothing when the id is not in
/// history.
pub fn advance_head(store: &mut Store, target: &str) -> (r: Result<(), WorkSpaceError>)
    ensures
        r is Ok <==> old(store)@.has_node(target@),
        r is Ok ==> final(store)@ == (StoreView { head: Some(target@), ..old(store)@ }),
        r is Err ==> final(store)@ == old(store)@ && (r matches Err(WorkSpaceError::NotFound(m))
            && m@ == target@),
        old(store)@.wf() ==> final(store)@.wf(),
{
    if node_exists(store, target) {
        store.head = Some(target.to_owned());
        proof {
            let pre = old(store)@;
            let post = store@;
            assert(post == (StoreView { head: Some(target@), ..pre }));
            assert(post.nodes == pre.nodes && post.blobs == pre.blobs && post.node_files
                == pre.node_files && post.parents == pre.parents);
            if pre.wf() {
                let k = choose|k: int|
                    0 <= k < pre.nodes.len() && (#[trigger] pre.nodes[k]).id == target@;
                assert((#[trigger] post.nodes[k]).id == target@);
                assert(post.has_node(target@));
                assert(post.wf());
            }
        }
        Ok(())
    } else {
        Err(WorkSpaceError::NotFound(target.to_owned()))
    }
}


/// Checks the node-id uniqueness invariant.
fn nodes_unique(s: &Store) -> (r: bool)
    ensures
        r == (forall|i: int, j: int|
            0 <= i < j < s@.nodes.len() ==> (#[trigger] s@.nodes[i]).id != (
            #[trigger] s@.nodes[j]).id),
{
    let n = s.nodes.len();
    let mut i: usize = 0;
    while i < n
        invariant
            i <= n,
            n == s@.nodes.len(),
            s.nodes@.len() == n,
            forall|a: int, b: int|
                0 <= a < b < n && a < i ==> (#[trigger] s@.nodes[a]).id != (
                #[trigger] s@.nodes[b]).id,
        decreases n - i,
    {
        let mut j: usize = i + 1;
        while j < n
            invariant
                i < n,
                i + 1 <= j <= n,
                n == s@.nodes.len(),
                s.nodes@.len() == n,
                forall|b: int| i < b < j ==> (#[trigger] s@.nodes[b]).id != s@.nodes[i as int].id,
            decreases n - j,
        {
            if str_eq_exec(s.nodes[i].id.as_str(), s.nodes[j].id.as_str()) {
                proof {
                    assert((#[trigger] s@.nodes[i as int]).id == (
                    #[trigger] s@.nodes[j as int]).id);
                }
                return false;
            }
            j = j + 1;
        }
        i = i + 1;
    }
    true
}

/// Checks the blob-id uniqueness invariant.
fn blobs_unique(s: &Store) -> (r: bool)
    ensures
        r == (forall|i: int, j: int|
            0 <= i < j < s@.blobs.len() ==> (#[trigger] s@.blobs[i]).id != (
            #[trigger] s@.blobs[j]).id),
{
    let n = s.blobs.len();
    let mut i: usize = 0;
    while i < n
        invariant
            i <= n,
            n == s@.blobs.len(),
            s.blobs@.len() == n,
            forall|a: int, b: int|
                0 <= a < b < n && a < i ==> (#[trigger] s@.blobs[a]).id != (
                #[trigger] s@.blobs[b]).id,
        decreases n - i,
    {
        let mut j: usize = i + 1;
        while j < n
            invariant
                i < n,
                i + 1 <= j <= n,
                n == s@.blobs.len(),
                s.blobs@.len() == n,
                forall|b: int| i < b < j ==> (#[trigger] s@.blobs[b]).id != s@.blobs[i as int].id,
            decreases n - j,
        {
            if str_eq_exec(s.blobs[i].id.as_str(), s.blobs[j].id.as_str()) {
                proof {
                    assert((#[trigger] s@.blobs[i as int]).id == (
                    #[trigger] s@.blobs[j as int]).id);
                }
                return false;
            }
            j = j + 1;
        }
        i = i + 1;
    }
    true
}

/// Checks that every blob's id is the hash of its own content.
fn blobs_addressed(s: &Store) -> (r: bool)
    ensures
        r == (forall|i: int|
            0 <= i < s@.blobs.len() ==> (#[trigger] s@.blobs[i]).id == blob_id_spec(
                s@.blobs[i].content,
            )),
{
    let n = s.blobs.len();
    let mut i: usize = 0;
    while i < n
        invariant
            i <= n,
            n == s@.blobs.len(),
            s.blobs@.len() == n,
            forall|a: int|
                0 <= a < i ==> (#[trigger] s@.blobs[a]).id == blob_id_spec(s@.blobs[a].content),
        decreases n - i,
    {
        let computed = crate::snapshot::blob_id_for_content(s.blobs[i].content.as_slice());
        if !str_eq_exec(computed.as_str(), s.blobs[i].id.as_str()) {
            proof {
                assert((#[trigger] s@.blobs[i as int]).id != blob_id_spec(
                    s@.blobs[i as int].content,
                ));
            }
            return false;
        }
        i = i + 1;
    }
    true
}

/// Checks that every association references an existing node and blob.
fn links_valid(s: &Store) -> (r: bool)
    ensures
        r == (forall|i: int|
            0 <= i < s@.node_files.len() ==> s@.has_node((#[trigger] s@.node_files[i]).node_id)
                && s@.has_blob(s@.node_files[i].blob_id)),
{
    let n = s.node_files.len();
    let mut i: usize = 0;
    while i < n
        invariant
            i <= n,
            n == s@.node_files.len(),
            s.node_files@.len() == n,
            forall|a: int|
                0 <= a < i ==> s@.has_node((#[trigger] s@.node_files[a]).node_id) && s@.has_blob(
                    s@.node_files[a].blob_id,
                ),
        decreases n - i,
    {
        proof {
            crate::commit::lemma_blob_lookup_iff_exists(
                s@.blobs,
                s@.node_files[i as int].blob_id,
            );
        }
        if !node_exists(s, s.node_files[i].node_id.as_str()) {
            return false;
        }
        if !crate::commit::blob_exists(s, s.node_files[i].blob_id.as_str()) {
            return false;
        }
        i = i + 1;
    }
    true
}

/// Checks that each commit's association paths are strictly sorted.
fn links_sorted(s: &Store) -> (r: bool)
    ensures
        r == (forall|i: int, j: int|
            0 <= i < j < s@.node_files.len() && (#[trigger] s@.node_files[i]).node_id == (
            #[trigger] s@.node_files[j]).node_id ==> str_lt(
                s@.node_files[i].path,
                s@.node_files[j].path,
            )),
{
    let n = s.node_files.len();
    let mut i: usize = 0;
    while i < n
        invariant
            i <= n,
            n == s@.node_files.len(),
            s.node_files@.len() == n,
            forall|a: int, b: int|
                0 <= a < b < n && a < i && (#[trigger] s@.node_files[a]).node_id == (
                #[trigger] s@.node_files[b]).node_id ==> str_lt(
                    s@.node_files[a].path,
                    s@.node_files[b].path,
                ),
        decreases n - i,
    {
        let mut j: usize = i + 1;
        while j < n
            invariant
                i < n,
                i + 1 <= j <= n,
                n == s@.node_files.len(),
                s.node_files@.len() == n,
                forall|b: int|
                    i < b < j && (#[trigger] s@.node_files[b]).node_id
                        == s@.node_files[i as int].node_id ==> str_lt(
                        s@.node_files[i as int].path,
                        s@.node_files[b].path,
                    ),
            decreases n - j,
        {
            if str_eq_exec(s.node_files[i].node_id.as_str(), s.node_files[j].node_id.as_str()) {
                if !crate::text::str_lt_exec(
                    s.node_files[i].path.as_str(),
                    s.node_files[j].path.as_str(),
                ) {
                    proof {
                        assert((#[trigger] s@.node_files[i as int]).node_id == (
                        #[trigger] s@.node_files[j as int]).node_id && !str_lt(
                            s@.node_files[i as int].path,
                            s@.node_files[j as int].path,
                        ));
                    }
                    return false;
                }
            }
            j = j + 1;
        }
        i = i + 1;
    }
    true
}

/// Checks that every parent link references existing nodes.
fn parents_valid(s: &Store) -> (r: bool)
    ensures
        r == (forall|i: int|
            0 <= i < s@.parents.len() ==> s@.has_node((#[trigger] s@.parents[i]).node_id)
                && s@.has_node(s@.parents[i].parent_id)),
{
    let n = s.parents.len();
    let mut i: usize = 0;
    while i < n
        invariant
            i <= n,
            n == s@.parents.len(),
            s.parents@.len() == n,
            forall|a: int|
                0 <= a < i ==> s@.has_node((#[trigger] s@.parents[a]).node_id) && s@.has_node(
                    s@.parents[a].parent_id,
                ),
        decreases n - i,
    {
        if !node_exists(s, s.parents[i].node_id.as_str()) {
            proof {
                assert(!s@.has_node((#[trigger] s@.parents[i as int]).node_id));
            }
            return false;
        }
        if !node_exists(s, s.parents[i].parent_id.as_str()) {
            proof {
                assert(!s@.has_node((#[trigger] s@.parents[i as int]).parent_id));
            }
            return false;
        }
        i = i + 1;
    }
    true
}

/// Checks that each commit's parent links are strictly ordered by ordinal.
fn parents_ordered(s: &Store) -> (r: bool)
    ensures
        r == (forall|i: int, j: int|
            0 <= i < j < s@.parents.len() && (#[trigger] s@.parents[i]).node_id == (
            #[trigger] s@.parents[j]).node_id ==> s@.parents[i].ord < s@.parents[j].ord),
{
    let n = s.parents.len();
    let mut i: usize = 0;
    while i < n
        invariant
            i <= n,
            n == s@.parents.len(),
            s.parents@.len() == n,
            forall|a: int, b: int|
                0 <= a < b < n && a < i && (#[trigger] s@.parents[a]).node_id == (
                #[trigger] s@.parents[b]).node_id ==> s@.parents[a].ord < s@.parents[b].ord,
        decreases n - i,
    {
        let mut j: usize = i + 1;
        while j < n
            invariant
                i < n,
                i + 1 <= j <= n,
                n == s@.parents.len(),
                s.parents@.len() == n,
                forall|b: int|
                    i < b < j && (#[trigger] s@.parents[b]).node_id
                        == s@.parents[i as int].node_id ==> s@.parents[i as int].ord
                        < s@.parents[b].ord,
            decreases n - j,
        {
            if str_eq_exec(s.parents[i].node_id.as_str(), s.parents[j].node_id.as_str()) {
                if s.parents[i].ord >= s.parents[j].ord {
                    proof {
                        assert((#[trigger] s@.parents[i as int]).node_id == (
                        #[trigger] s@.parents[j as int]).node_id && s@.parents[i as int].ord
                            >= s@.parents[j as int].ord);
                    }
                    return false;
                }
            }
            j = j + 1;
        }
        i = i + 1;
    }
    true
}

/// Decides well-formedness of a store value at runtime.
pub fn check_wf(s: &Store) -> (r: bool)
    ensures
        r == s@.wf(),
{
    let head_ok = match &s.head {
        Some(h) => node_exists(s, h.as_str()),
        None => true,
    };
    head_ok && nodes_unique(s) && blobs_unique(s) && blobs_addressed(s) && links_valid(s)
        && links_sorted(s) && parents_valid(s) && parents_ordered(s)
}

/// Rebuilds a store from persisted rows, accepting it only when every row
/// invariant holds; rows that break an invariant are rejected as a whole.
pub fn from_rows(
    nodes: Vec<NodeRecord>,
    parents: Vec<ParentLink>,
    blobs: Vec<BlobRecord>,
    node_files: Vec<FileLink>,
    head: Option<String>,
) -> (r: Option<Store>)
    ensures
        r matches Some(s) ==> s@.wf() && s@ == (StoreView {
            nodes: nodes@.map_values(|n: NodeRecord| n@),
            parents: parents@.map_values(|p: ParentLink| p@),
            blobs: blobs@.map_values(|b: BlobRecord| b@),
            node_files: node_files@.map_values(|f: FileLink| f@),
            head: match head {
                Some(h) => Some(h@),
                None => None,
            },
        }),
        r is None ==> !(StoreView {
            nodes: nodes@.map_values(|n: NodeRecord| n@),
            parents: parents@.map_values(|p: ParentLink| p@),
            blobs: blobs@.map_values(|b: BlobRecord| b@),
            node_files: node_files@.map_values(|f: FileLink| f@),
            head: match head {
                Some(h) => Some(h@),
                None => None,
            },
        }).wf(),
{
    let s = Store { nodes, parents, blobs, node_files, head };
    if check_wf(&s) {
        Some(s)
    } else {
        None
    }
}

} // verus!
