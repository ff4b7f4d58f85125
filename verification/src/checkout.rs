//! The checkout engine: computes how to make a working tree match a stored
//! snapshot.
//!
//! Checkout is deliberately split in two: [`checkout`] reads the store and
//! returns a [`CheckoutPlan`] of deletions and writes, and only after the
//! caller has applied the whole plan to the filesystem does
//! [`crate::store::advance_head`] move the head pointer, so a failed
//! checkout never promotes a half-written tree.

use vstd::prelude::*;

use crate::error::WorkSpaceError;
use crate::snapshot::SnapshotFile;
use crate::snapshot::SnapshotFileView;
use crate::commit::commit_ok;
use crate::commit::lemma_links_of_snapshot_elts;
use crate::commit::links_of_snapshot;
use crate::snapshot::blob_id_spec;
use crate::store::blob_content_of;
use crate::store::StoreView;
use crate::store::blob_lookup;
use crate::store::lemma_links_filter_sub;
use crate::store::links_of;
use crate::store::links_filter;
use crate::store::node_exists;
use crate::store::FileLink;
use crate::store::FileLinkView;
use crate::store::Store;
use crate::text::copy_bytes;
use crate::text::str_eq_exec;

verus! {

/// The filesystem work one checkout requires: delete the stray paths, then
/// write every snapshot file.
#[derive(Debug)]
pub struct CheckoutPlan {
    pub deletes: Vec<String>,
    pub writes: Vec<SnapshotFile>,
}

pub struct CheckoutPlanView {
    pub deletes: Seq<Seq<char>>,
    pub writes: Seq<SnapshotFileView>,
}

impl View for CheckoutPlan {
    type V = CheckoutPlanView;

    open spec fn view(&self) -> CheckoutPlanView {
        CheckoutPlanView {
            deletes: self.deletes@.map_values(|s: String| s@),
            writes: self.writes@.map_values(|f: SnapshotFile| f@),
        }
    }
}

/// Some association in the list carries this path.
pub open spec fn path_in_links(links: Seq<FileLinkView>, p: Seq<char>) -> bool {
    exists|i: int| 0 <= i < links.len() && (#[trigger] links[i]).path == p
}

/// The working-tree paths that do not belong to the target snapshot, in
/// their given order.
pub open spec fn prune_list(current: Seq<Seq<char>>, links: Seq<FileLinkView>) -> Seq<Seq<char>>
    decreases current.len(),
{
    if current.len() == 0 {
        Seq::empty()
    } else {
        let rest = prune_list(current.drop_first(), links);
        if path_in_links(links, current[0]) {
            rest
        } else {
            seq![current[0]] + rest
        }
    }
}



/// Whether any association in the list carries this path.
fn links_have_path(links: &Vec<FileLink>, p: &str) -> (r: bool)
    ensures
        r == path_in_links(links@.map_values(|l: FileLink| l@), p@),
{
    let n = links.len();
    let ghost lv = links@.map_values(|l: FileLink| l@);
    let mut j: usize = 0;
    while j < n
        invariant
            j <= n,
            n == links@.len(),
            lv == links@.map_values(|l: FileLink| l@),
            lv.len() == links@.len(),
            forall|k: int| 0 <= k < j ==> (#[trigger] lv[k]).path != p@,
        decreases n - j,
    {
        if str_eq_exec(links[j].path.as_str(), p) {
            proof {
                assert((#[trigger] lv[j as int]).path == p@);
            }
            return true;
        }
        j = j + 1;
    }
    false
}

/// What a successful checkout plan holds: one write per association of the
/// target commit, carrying the exact stored bytes, and one deletion per
/// working-tree path that the snapshot lacks.
pub open spec fn checkout_post(
    s: crate::store::StoreView,
    target: Seq<char>,
    current: Seq<Seq<char>>,
    plan: CheckoutPlanView,
) -> bool {
    let links = s.links_for(target);
    &&& plan.writes.len() == links.len()
    &&& forall|i: int|
        0 <= i < links.len() ==> (#[trigger] plan.writes[i]).path == links[i].path && Some(
            plan.writes[i].content,
        ) == blob_lookup(s.blobs, links[i].blob_id)
    &&& plan.deletes == prune_list(current, links)
}

/// Computes the plan that makes a working tree match the target commit's
/// snapshot.
///
/// Fails with `NotFound`, planning nothing, when the target id is not in
/// history.  Otherwise the plan deletes every given working-tree path that
/// the snapshot lacks and writes every snapshot file with the exact bytes
/// its blob stores; the store itself, the head included, is untouched.
pub fn checkout(store: &Store, target_node_id: &str, current_paths: &Vec<String>) -> (r: Result<
    CheckoutPlan,
    WorkSpaceError,
>)
    requires
        store@.wf(),
    ensures
        r is Ok <==> store@.has_node(target_node_id@),
        r matches Err(e) ==> (e matches WorkSpaceError::NotFound(m) && m@ == target_node_id@),
        r matches Ok(plan) ==> checkout_post(
            store@,
            target_node_id@,
            current_paths@.map_values(|s: String| s@),
            plan@,
        ),
{
    if !node_exists(store, target_node_id) {
        return Err(WorkSpaceError::NotFound(target_node_id.to_owned()));
    }
    let links = links_of(store, target_node_id);
    let ghost lv = store@.links_for(target_node_id@);

    let mut writes: Vec<SnapshotFile> = Vec::new();
    let n = links.len();
    let mut i: usize = 0;
    while i < n
        invariant
            i <= n,
            n == links@.len(),
            links@.map_values(|l: FileLink| l@) == lv,
            lv == store@.links_for(target_node_id@),
            store@.wf(),
            writes@.len() == i,
            forall|k: int|
                0 <= k < i ==> (#[trigger] writes@[k])@.path == lv[k].path && Some(
                    writes@[k]@.content,
                ) == blob_lookup(store@.blobs, lv[k].blob_id),
        decreases n - i,
    {
        let link = &links[i];
        proof {
            assert(lv[i as int] == links@[i as int]@);
            assert(store@.node_files.contains(lv[i as int])) by {
                lemma_links_filter_sub(store@.node_files, target_node_id@, i as int);
            }
            let w = choose|w: int|
                0 <= w < store@.node_files.len() && store@.node_files[w] == lv[i as int];
            assert(store@.has_blob(store@.node_files[w].blob_id));
            crate::commit::lemma_blob_lookup_iff_exists(store@.blobs, lv[i as int].blob_id);
        }
        let content = blob_content_of(store, link.blob_id.as_str());
        writes.push(SnapshotFile { path: link.path.clone(), content });
        i = i + 1;
    }

    let mut deletes: Vec<String> = Vec::new();
    let m = current_paths.len();
    let ghost cv = current_paths@.map_values(|s: String| s@);
    let mut j: usize = 0;
    proof {
        assert(cv.skip(0) =~= cv);
        assert(deletes@.map_values(|s: String| s@) =~= Seq::<Seq<char>>::empty());
    }
    while j < m
        invariant
            j <= m,
            m == cv.len(),
            current_paths@.len() == cv.len(),
            cv == current_paths@.map_values(|s: String| s@),
            links@.map_values(|l: FileLink| l@) == lv,
            prune_list(cv, lv) == deletes@.map_values(|s: String| s@) + prune_list(
                cv.skip(j as int),
                lv,
            ),
        decreases m - j,
    {
        let ghost acc = deletes@;
        proof {
            assert(cv.skip(j as int)[0] == cv[j as int]);
            assert(cv.skip(j as int).drop_first() =~= cv.skip(j + 1 as int));
            assert(cv[j as int] == current_paths@[j as int]@);
        }
        if !links_have_path(&links, current_paths[j].as_str()) {
            deletes.push(current_paths[j].clone());
            proof {
                assert(deletes@.map_values(|s: String| s@) =~= acc.map_values(|s: String| s@)
                    + seq![cv[j as int]]);
                assert(acc.map_values(|s: String| s@) + (seq![cv[j as int]] + prune_list(
                    cv.skip(j + 1 as int),
                    lv,
                )) =~= (acc.map_values(|s: String| s@) + seq![cv[j as int]]) + prune_list(
                    cv.skip(j + 1 as int),
                    lv,
                ));
            }
        }
        j = j + 1;
    }
    proof {
        assert(cv.skip(m as int) =~= Seq::<Seq<char>>::empty());
        assert(prune_list(cv, lv) =~= deletes@.map_values(|s: String| s@));
    }
    Ok(CheckoutPlan { deletes, writes })
}



/// Filtering associations distributes over concatenation.
pub proof fn lemma_links_filter_concat(a: Seq<FileLinkView>, b: Seq<FileLinkView>, id: Seq<char>)
    ensures
        links_filter(a + b, id) == links_filter(a, id) + links_filter(b, id),
    decreases a.len(),
{
    if a.len() == 0 {
        assert(a + b =~= b);
        assert(links_filter(a, id) + links_filter(b, id) =~= links_filter(b, id));
    } else {
        lemma_links_filter_concat(a.drop_first(), b, id);
        assert((a + b).drop_first() =~= a.drop_first() + b);
        if a[0].node_id == id {
            assert(seq![a[0]] + (links_filter(a.drop_first(), id) + links_filter(b, id)) =~= (
            seq![a[0]] + links_filter(a.drop_first(), id)) + links_filter(b, id));
        }
    }
}

/// No association of a foreign commit survives the filter.
pub proof fn lemma_links_filter_none(nf: Seq<FileLinkView>, id: Seq<char>)
    requires
        forall|i: int| 0 <= i < nf.len() ==> (#[trigger] nf[i]).node_id != id,
    ensures
        links_filter(nf, id) == Seq::<FileLinkView>::empty(),
    decreases nf.len(),
{
    if nf.len() > 0 {
        assert(forall|i: int|
            0 <= i < nf.drop_first().len() ==> #[trigger] nf.drop_first()[i] == nf[i + 1]);
        lemma_links_filter_none(nf.drop_first(), id);
    }
}

/// A list of associations that all carry the commit's id passes the filter
/// unchanged.
pub proof fn lemma_links_filter_all(nf: Seq<FileLinkView>, id: Seq<char>)
    requires
        forall|i: int| 0 <= i < nf.len() ==> (#[trigger] nf[i]).node_id == id,
    ensures
        links_filter(nf, id) == nf,
    decreases nf.len(),
{
    if nf.len() > 0 {
        assert(forall|i: int|
            0 <= i < nf.drop_first().len() ==> #[trigger] nf.drop_first()[i] == nf[i + 1]);
        lemma_links_filter_all(nf.drop_first(), id);
        assert(seq![nf[0]] + nf.drop_first() =~= nf);
    }
}

/// A fresh commit's associations are exactly the snapshot's rows.
pub proof fn lemma_links_for_new_commit(
    pre: StoreView,
    post: StoreView,
    files: Seq<SnapshotFileView>,
    message: Seq<char>,
    now_ms: int,
    id: Seq<char>,
)
    requires
        pre.wf(),
        commit_ok(pre, post, files, message, now_ms, id),
    ensures
        post.links_for(id) == links_of_snapshot(files, id),
{
    assert forall|i: int| 0 <= i < pre.node_files.len() implies (
    #[trigger] pre.node_files[i]).node_id != id by {
        if pre.node_files[i].node_id == id {
            assert(pre.has_node(id));
        }
    }
    lemma_links_filter_none(pre.node_files, id);
    lemma_links_filter_concat(pre.node_files, links_of_snapshot(files, id), id);
    lemma_links_of_snapshot_elts(files, id);
    lemma_links_filter_all(links_of_snapshot(files, id), id);
    assert(Seq::<FileLinkView>::empty() + links_of_snapshot(files, id) =~= links_of_snapshot(
        files,
        id,
    ));
}

/// Law: committing a snapshot and then checking that commit out writes
/// every snapshot file back with exactly its committed bytes.
///
/// The two blob-id hypotheses exclude SHA-256 collisions: no earlier blob
/// row and no other snapshot file may carry this file's blob id with
/// different bytes.
pub proof fn lemma_commit_checkout_round_trip(
    pre: StoreView,
    post: StoreView,
    files: Seq<SnapshotFileView>,
    message: Seq<char>,
    now_ms: int,
    id: Seq<char>,
    current: Seq<Seq<char>>,
    plan: CheckoutPlanView,
    k: int,
)
    requires
        pre.wf(),
        commit_ok(pre, post, files, message, now_ms, id),
        checkout_post(post, id, current, plan),
        0 <= k < files.len(),
        blob_lookup(pre.blobs, blob_id_spec(files[k].content)) matches Some(c) ==> c
            == files[k].content,
        forall|j: int|
            0 <= j < files.len() && blob_id_spec(#[trigger] files[j].content) == blob_id_spec(
                files[k].content,
            ) ==> files[j].content == files[k].content,
    ensures
        plan.writes.len() == files.len(),
        plan.writes[k].path == files[k].path,
        plan.writes[k].content == files[k].content,
{
    lemma_links_for_new_commit(pre, post, files, message, now_ms, id);
    lemma_links_of_snapshot_elts(files, id);
    let links = post.links_for(id);
    assert(links[k].blob_id == blob_id_spec(files[k].content));
    let bid = blob_id_spec(files[k].content);
    if blob_lookup(pre.blobs, bid) is Some {
        crate::commit::lemma_add_blobs_monotone(pre.blobs, files, bid);
        assert(blob_lookup(post.blobs, bid) == Some(files[k].content));
    } else {
        crate::commit::lemma_add_blobs_covers(pre.blobs, files, k);
        assert(blob_lookup(post.blobs, bid) == Some(files[k].content));
    }
    assert(Some(plan.writes[k].content) == blob_lookup(post.blobs, links[k].blob_id));
}

/// Membership in the prune list: exactly the given paths that the snapshot
/// lacks.
pub proof fn lemma_prune_list_membership(
    current: Seq<Seq<char>>,
    links: Seq<FileLinkView>,
    p: Seq<char>,
)
    ensures
        prune_list(current, links).contains(p) <==> (current.contains(p) && !path_in_links(
            links,
            p,
        )),
    decreases current.len(),
{
    if current.len() == 0 {
        assert(!prune_list(current, links).contains(p));
        assert(!current.contains(p));
    } else {
        lemma_prune_list_membership(current.drop_first(), links, p);
        let rest = prune_list(current.drop_first(), links);
        assert(current.drop_first().contains(p) <==> (exists|i: int|
            1 <= i < current.len() && current[i] == p)) by {
            if current.drop_first().contains(p) {
                let w = choose|w: int|
                    0 <= w < current.drop_first().len() && current.drop_first()[w] == p;
                assert(current[w + 1] == p);
            }
            if exists|i: int| 1 <= i < current.len() && current[i] == p {
                let w = choose|w: int| 1 <= w < current.len() && current[w] == p;
                assert(current.drop_first()[w - 1] == p);
            }
        }
        if path_in_links(links, current[0]) {
            if current.contains(p) && !path_in_links(links, p) {
                let w = choose|w: int| 0 <= w < current.len() && current[w] == p;
                assert(w != 0);
            }
        } else {
            let full = seq![current[0]] + rest;
            assert(prune_list(current, links) == full);
            assert(full.contains(p) <==> (p == current[0] || rest.contains(p))) by {
                if full.contains(p) {
                    let w = choose|w: int| 0 <= w < full.len() && full[w] == p;
                    if w > 0 {
                        assert(rest[w - 1] == p);
                        assert(rest.contains(rest[w - 1]));
                    }
                } else {
                    assert(full[0] == current[0]);
                    if rest.contains(p) {
                        let w = choose|w: int| 0 <= w < rest.len() && rest[w] == p;
                        assert(full[w + 1] == p);
                    }
                }
            }
            if current.contains(p) && p != current[0] {
                let w = choose|w: int| 0 <= w < current.len() && current[w] == p;
                assert(w != 0);
            }
            assert(current.contains(current[0]));
        }
    }
}

/// Law: a checkout plan deletes exactly the working-tree paths the target
/// snapshot lacks, and writes exactly the snapshot's paths.
pub proof fn lemma_checkout_prunes(
    s: StoreView,
    target: Seq<char>,
    current: Seq<Seq<char>>,
    plan: CheckoutPlanView,
    p: Seq<char>,
)
    requires
        s.wf(),
        checkout_post(s, target, current, plan),
    ensures
        plan.deletes.contains(p) <==> (current.contains(p) && !path_in_links(
            s.links_for(target),
            p,
        )),
        path_in_links(s.links_for(target), p) <==> (exists|i: int|
            0 <= i < plan.writes.len() && (#[trigger] plan.writes[i]).path == p),
{
    let links = s.links_for(target);
    lemma_prune_list_membership(current, links, p);
    if path_in_links(links, p) {
        let w = choose|w: int| 0 <= w < links.len() && (#[trigger] links[w]).path == p;
        assert(plan.writes[w].path == p);
    }
    if exists|i: int| 0 <= i < plan.writes.len() && (#[trigger] plan.writes[i]).path == p {
        let w = choose|w: int| 0 <= w < plan.writes.len() && (#[trigger] plan.writes[w]).path == p;
        assert(links[w].path == p);
    }
}

} // verus!
