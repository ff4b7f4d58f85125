//! The log: the full commit history, newest first, each entry carrying its
//! ordered parent list.

use vstd::multiset::Multiset;
use vstd::prelude::*;

use crate::store::parent_ids_filter;
use crate::store::NodeView;
use crate::store::Store;
use crate::store::StoreView;
use crate::text::str_eq_exec;
use crate::types::VersionNode;
use crate::types::VersionNodeView;

verus! {

/// A log entry reports one stored node faithfully: same id, message and
/// creation time, and exactly the node's parent ids in ordinal order.
pub open spec fn entry_matches(e: VersionNodeView, n: NodeView, s: StoreView) -> bool {
    &&& e.id == n.id
    &&& e.message == n.message
    &&& e.created_at_unix_ms == n.created_at_unix_ms
    &&& e.parents == s.parents_for(n.id)
}

/// Collects the parent ids of one node, in stored (ordinal) order.
fn parents_of(store: &Store, id: &str) -> (r: Vec<String>)
    ensures
        r@.map_values(|s: String| s@) == store@.parents_for(id@),
{
    let n = store.parents.len();
    let mut r: Vec<String> = Vec::new();
    let mut j: usize = 0;
    proof {
        assert(store@.parents.skip(0) =~= store@.parents);
        assert(r@.map_values(|s: String| s@) =~= Seq::<Seq<char>>::empty());
    }
    while j < n
        invariant
            j <= n,
            n == store@.parents.len(),
            store.parents@.len() == store@.parents.len(),
            store@.parents_for(id@) == r@.map_values(|s: String| s@) + parent_ids_filter(
                store@.parents.skip(j as int),
                id@,
            ),
        decreases n - j,
    {
        let ghost acc = r@;
        proof {
            assert(store@.parents.skip(j as int)[0] == store@.parents[j as int]);
            assert(store@.parents.skip(j as int).drop_first() =~= store@.parents.skip(
                j + 1 as int,
            ));
        }
        if str_eq_exec(store.parents[j].node_id.as_str(), id) {
            r.push(store.parents[j].parent_id.clone());
            proof {
                assert(r@.map_values(|s: String| s@) =~= acc.map_values(|s: String| s@) + seq![
                    store@.parents[j as int].parent_id,
                ]);
                assert(acc.map_values(|s: String| s@) + (seq![
                    store@.parents[j as int].parent_id,
                ] + parent_ids_filter(store@.parents.skip(j + 1 as int), id@)) =~= (acc.map_values(
                    |s: String| s@,
                ) + seq![store@.parents[j as int].parent_id]) + parent_ids_filter(
                    store@.parents.skip(j + 1 as int),
                    id@,
                ));
            }
        }
        j = j + 1;
    }
    proof {
        assert(store@.parents.skip(n as int) =~= Seq::<crate::store::ParentLinkView>::empty());
        assert(store@.parents_for(id@) =~= r@.map_values(|s: String| s@));
    }
    r
}

/// Inserts an entry before the first strictly older one, keeping the list
/// ordered by creation time descending.  The result holds exactly the old
/// entries and the new one.
fn insert_sorted(out: &mut Vec<VersionNode>, entry: VersionNode)
    requires
        forall|a: int, b: int|
            0 <= a < b < old(out)@.len() ==> (#[trigger] old(out)@[a]).created_at_unix_ms >= (
            #[trigger] old(out)@[b]).created_at_unix_ms,
    ensures
        final(out)@.len() == old(out)@.len() + 1,
        forall|a: int, b: int|
            0 <= a < b < final(out)@.len() ==> (#[trigger] final(out)@[a]).created_at_unix_ms >= (
            #[trigger] final(out)@[b]).created_at_unix_ms,
        final(out)@.to_multiset() == old(out)@.to_multiset().insert(entry),
{
    let m = out.len();
    let mut p: usize = 0;
    while p < m && out[p].created_at_unix_ms >= entry.created_at_unix_ms
        invariant
            p <= m,
            m == out@.len(),
            out@ == old(out)@,
            forall|a: int|
                0 <= a < p ==> (#[trigger] out@[a]).created_at_unix_ms
                    >= entry.created_at_unix_ms,
        decreases m - p,
    {
        p = p + 1;
    }
    let ghost before = out@;
    let ghost pos = p as int;
    out.insert(p, entry);
    proof {
        assert(forall|a: int| 0 <= a < pos ==> #[trigger] out@[a] == before[a]);
        assert(out@[pos] == entry);
        assert(forall|b: int| pos < b < out@.len() ==> #[trigger] out@[b] == before[b - 1]);
        assert forall|a: int, b: int|
            0 <= a < b < out@.len() implies (#[trigger] out@[a]).created_at_unix_ms >= (
        #[trigger] out@[b]).created_at_unix_ms by {
            if a < pos && b < pos {
            } else if a < pos && b == pos {
            } else if a == pos && b > pos {
                assert(before[b - 1].created_at_unix_ms <= entry.created_at_unix_ms);
            } else if a < pos && b > pos {
                assert(out@[a] == before[a]);
                assert(out@[b] == before[b - 1]);
            } else {
                assert(out@[a] == before[a - 1]);
                assert(out@[b] == before[b - 1]);
            }
        }
        let s1 = before.subrange(0, pos);
        let s2 = before.subrange(pos, before.len() as int);
        assert(out@ == before.insert(pos, entry));
        vstd::seq_lib::lemma_multiset_commutative(s1.push(entry), s2);
        vstd::seq_lib::lemma_multiset_commutative(s1, s2);
        s1.to_multiset_ensures();
        assert(before =~= s1 + s2);
        assert(out@.to_multiset() =~= before.to_multiset().insert(entry));
    }
}

/// Sorts entries by creation time descending; the result holds exactly the
/// given entries.
fn sort_entries(base: Vec<VersionNode>) -> (r: Vec<VersionNode>)
    ensures
        r@.len() == base@.len(),
        forall|a: int, b: int|
            0 <= a < b < r@.len() ==> (#[trigger] r@[a]).created_at_unix_ms >= (
            #[trigger] r@[b]).created_at_unix_ms,
        r@.to_multiset() == base@.to_multiset(),
{
    let ghost orig = base@;
    let ghost n = base@.len() as int;
    let mut rest = base;
    let mut out: Vec<VersionNode> = Vec::new();
    proof {
        out@.to_multiset_ensures();
        assert(out@.to_multiset().len() == 0);
        assert(out@.to_multiset() =~= Multiset::<VersionNode>::empty());
        assert(out@.to_multiset().add(rest@.to_multiset()) =~= orig.to_multiset());
    }
    while rest.len() > 0
        invariant
            out@.len() + rest@.len() == n,
            n == orig.len(),
            forall|a: int, b: int|
                0 <= a < b < out@.len() ==> (#[trigger] out@[a]).created_at_unix_ms >= (
                #[trigger] out@[b]).created_at_unix_ms,
            out@.to_multiset().add(rest@.to_multiset()) == orig.to_multiset(),
        decreases rest@.len(),
    {
        let ghost rest_before = rest@;
        let e = match rest.pop() {
            Some(e) => e,
            None => {
                proof {
                    assert(false);
                }
                unreached()
            },
        };
        proof {
            assert(rest_before =~= rest@.push(e));
            rest@.to_multiset_ensures();
            assert(rest_before.to_multiset() =~= rest@.to_multiset().insert(e));
        }
        let ghost out_before = out@;
        insert_sorted(&mut out, e);
        proof {
            assert(out@.to_multiset().add(rest@.to_multiset())
                =~= out_before.to_multiset().add(rest_before.to_multiset()));
        }
    }
    proof {
        rest@.to_multiset_ensures();
        assert(rest@.to_multiset().len() == 0);
        assert(rest@.to_multiset() =~= Multiset::<VersionNode>::empty());
        assert(out@.to_multiset() =~= orig.to_multiset());
    }
    out
}

/// Entry `i` of a log reports some stored node.
pub open spec fn entry_reported(r: Seq<VersionNode>, s: StoreView, i: int) -> bool {
    exists|k: int| 0 <= k < s.nodes.len() && entry_matches(r[i]@, #[trigger] s.nodes[k], s)
}

/// Stored node `k` is reported by some log entry.
pub open spec fn node_reported(r: Seq<VersionNode>, s: StoreView, k: int) -> bool {
    exists|i: int| 0 <= i < r.len() && entry_matches((#[trigger] r[i])@, s.nodes[k], s)
}

/// Every log entry reports some stored node, and every stored node is
/// reported by some log entry.
pub open spec fn log_matches(r: Seq<VersionNode>, s: StoreView) -> bool {
    &&& forall|i: int| 0 <= i < r.len() ==> #[trigger] entry_reported(r, s, i)
    &&& forall|k: int| 0 <= k < s.nodes.len() ==> #[trigger] node_reported(r, s, k)
}

/// Reconstructs the commit history.
///
/// Returns one entry per stored node, ordered by creation time descending
/// (entries created in the same millisecond keep no particular order), each
/// entry carrying the node's parent ids in ordinal order.
#[verifier::rlimit(100)]
pub fn log(store: &Store) -> (r: Vec<VersionNode>)
    requires
        store@.wf(),
    ensures
        r@.len() == store@.nodes.len(),
        forall|i: int, j: int|
            0 <= i < j < r@.len() ==> (#[trigger] r@[i]).created_at_unix_ms >= (
            #[trigger] r@[j]).created_at_unix_ms,
        log_matches(r@, store@),
{
    let n = store.nodes.len();
    let mut base: Vec<VersionNode> = Vec::new();
    let mut i: usize = 0;
    while i < n
        invariant
            i <= n,
            n == store@.nodes.len(),
            store.nodes@.len() == store@.nodes.len(),
            base@.len() == i,
            forall|k: int|
                0 <= k < i ==> entry_matches((#[trigger] base@[k])@, store@.nodes[k], store@),
        decreases n - i,
    {
        let node = &store.nodes[i];
        let parents = parents_of(store, node.id.as_str());
        let entry = VersionNode {
            id: node.id.clone(),
            parents,
            message: node.message.clone(),
            created_at_unix_ms: node.created_at_unix_ms,
        };
        proof {
            assert(entry_matches(entry@, store@.nodes[i as int], store@));
        }
        base.push(entry);
        i = i + 1;
    }
    let ghost orig = base@;
    let out = sort_entries(base);
    proof {
        orig.to_multiset_ensures();
        out@.to_multiset_ensures();
        assert forall|i2: int| 0 <= i2 < out@.len() implies #[trigger] entry_reported(
            out@,
            store@,
            i2,
        ) by {
            assert(out@.contains(out@[i2]));
            assert(out@.to_multiset().count(out@[i2]) > 0);
            assert(orig.contains(out@[i2]));
            let j = choose|j: int| 0 <= j < orig.len() && orig[j] == out@[i2];
            assert(entry_matches(out@[i2]@, store@.nodes[j], store@));
        }
        assert forall|k: int| 0 <= k < store@.nodes.len() implies #[trigger] node_reported(
            out@,
            store@,
            k,
        ) by {
            assert(entry_matches(orig[k]@, store@.nodes[k], store@));
            assert(orig.contains(orig[k]));
            assert(orig.to_multiset().count(orig[k]) > 0);
            assert(out@.contains(orig[k]));
            let a = choose|a: int| 0 <= a < out@.len() && out@[a] == orig[k];
            assert(entry_matches((out@[a])@, store@.nodes[k], store@));
        }
        assert(log_matches(out@, store@));
    }
    out
}

} // verus!
