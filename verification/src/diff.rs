//! The diff engine: classifies the per-file changes between two stored
//! snapshots.
//!
//! Every path of either snapshot is classified as added, removed, modified
//! or unchanged by comparing blob ids; unchanged paths are not reported.
//! Text contents are decoded and diffed line by line; a file with a NUL
//! byte or invalid UTF-8 on either side is reported as binary with no text
//! fields at all.

use vstd::prelude::*;
use vstd::utf8::decode_utf8;
use vstd::utf8::valid_utf8;
use vstd::string::StrSliceExecFns;

use crate::error::WorkSpaceError;
use crate::store::blob_content_of;
use crate::store::blob_lookup;
use crate::store::lemma_links_filter_sub;
use crate::store::links_filter;
use crate::store::links_of;
use crate::store::node_exists;
use crate::store::FileLink;
use crate::store::FileLinkView;
use crate::store::Store;
use crate::store::StoreView;
use crate::text::chars_of;
use crate::text::push_char;
use crate::text::str_eq_exec;
use crate::text::str_lt_exec;
use crate::text::str_lt;
use crate::types::DiffKind;
use crate::types::FileDiff;
use crate::types::FileDiffView;
use crate::types::NodeDiff;

verus! {

/// A blob is treated as binary when it holds a NUL byte or is not valid
/// UTF-8.
pub open spec fn is_binary_bytes(b: Seq<u8>) -> bool {
    b.contains(0u8) || !valid_utf8(b)
}

/// Runtime check for [`is_binary_bytes`].
pub fn is_probably_binary(bytes: &[u8]) -> (r: bool)
    ensures
        r == is_binary_bytes(bytes@),
{
    let n = bytes.len();
    let mut i: usize = 0;
    while i < n
        invariant
            i <= n,
            n == bytes@.len(),
            forall|k: int| 0 <= k < i ==> bytes@[k] != 0u8,
        decreases n - i,
    {
        if bytes[i] == 0 {
            proof {
                assert(bytes@[i as int] == 0u8);
            }
            return true;
        }
        i = i + 1;
    }
    proof {
        if bytes@.contains(0u8) {
            let w = choose|w: int| 0 <= w < bytes@.len() && bytes@[w] == 0u8;
            assert(false);
        }
    }
    decode_utf(bytes).is_none()
}

/// Relies on std's `str::from_utf8`: succeeds exactly on valid UTF-8 and
/// decodes it to the encoded characters.
#[verifier::external_body]
pub(crate) fn decode_utf(bytes: &[u8]) -> (r: Option<String>)
    ensures
        r is Some <==> valid_utf8(bytes@),
        r matches Some(t) ==> t@ == decode_utf8(bytes@),
{
    std::str::from_utf8(bytes).ok().map(|s| s.to_string())
}

/// The text with every CRLF pair rewritten to a single LF, scanning left to
/// right.
pub open spec fn replace_crlf(t: Seq<char>) -> Seq<char>
    decreases t.len(),
{
    if t.len() == 0 {
        Seq::empty()
    } else if t.len() >= 2 && t[0] == '\r' && t[1] == '\n' {
        seq!['\n'] + replace_crlf(t.skip(2))
    } else {
        seq![t[0]] + replace_crlf(t.skip(1))
    }
}

/// Line-diff preprocessing: CRLF pairs become LF and a trailing newline is
/// guaranteed.
pub open spec fn normalize_spec(t: Seq<char>) -> Seq<char> {
    let u = replace_crlf(t);
    if u.len() > 0 && u.last() == '\n' {
        u
    } else {
        u + seq!['\n']
    }
}

/// Normalizes text before a line diff: CRLF to LF, and a final newline.
pub fn normalize_text_for_line_diff(text: &str) -> (r: String)
    ensures
        r@ == normalize_spec(text@),
{
    let v = chars_of(text);
    let n = v.len();
    let mut out = String::new();
    let mut i: usize = 0;
    proof {
        assert(text@.skip(0) =~= text@);
    }
    while i < n
        invariant
            i <= n,
            n == text@.len(),
            v@ == text@,
            replace_crlf(text@) == out@ + replace_crlf(text@.skip(i as int)),
        decreases n - i,
    {
        let ghost acc = out@;
        if v[i] == '\r' && i + 1 < n && v[i + 1] == '\n' {
            push_char(&mut out, '\n');
            proof {
                assert(text@.skip(i as int).len() >= 2);
                assert(text@.skip(i as int)[0] == '\r');
                assert(text@.skip(i as int)[1] == '\n');
                assert(text@.skip(i as int).skip(2) =~= text@.skip(i + 2 as int));
                assert(acc + (seq!['\n'] + replace_crlf(text@.skip(i + 2 as int))) =~= (acc + seq![
                    '\n',
                ]) + replace_crlf(text@.skip(i + 2 as int)));
            }
            i = i + 2;
        } else {
            let c = v[i];
            push_char(&mut out, c);
            proof {
                assert(text@.skip(i as int)[0] == c);
                assert(!(text@.skip(i as int).len() >= 2 && text@.skip(i as int)[0] == '\r'
                    && text@.skip(i as int)[1] == '\n'));
                assert(text@.skip(i as int).skip(1) =~= text@.skip(i + 1 as int));
                assert(acc + (seq![c] + replace_crlf(text@.skip(i + 1 as int))) =~= (acc + seq![c])
                    + replace_crlf(text@.skip(i + 1 as int)));
            }
            i = i + 1;
        }
    }
    proof {
        assert(text@.skip(n as int) =~= Seq::<char>::empty());
        assert(replace_crlf(text@) =~= out@);
    }
    let len = out.as_str().unicode_len();
    if len == 0 || out.as_str().get_char(len - 1) != '\n' {
        push_char(&mut out, '\n');
    }
    out
}

/// The unified line diff that the `similar` crate renders for two
/// normalized texts.  Named only: the result depends on the two texts
/// alone.
pub uninterp spec fn unified_of(before: Seq<char>, after: Seq<char>) -> Seq<char>;

/// Relies on similar's `TextDiff::from_lines` and its unified-diff
/// rendering: a deterministic function of the two texts.
#[verifier::external_body]
fn unified_diff_text(before: &str, after: &str) -> (r: String)
    ensures
        r@ == unified_of(before@, after@),
{
    let diff = similar::TextDiff::from_lines(before, after);
    diff.unified_diff().to_string()
}

/// The decoded text of an optional blob: present exactly when the bytes are
/// valid UTF-8.
pub open spec fn text_of(b: Option<Seq<u8>>) -> Option<Seq<char>> {
    match b {
        Some(bb) => if valid_utf8(bb) {
            Some(decode_utf8(bb))
        } else {
            None
        },
        None => None,
    }
}

/// The change report for one path, from the raw bytes of each side.
///
/// A binary side suppresses every text field; otherwise each present side
/// is decoded, and a unified diff is rendered only when both sides are
/// present.
pub open spec fn file_diff_spec(
    path: Seq<char>,
    kind: DiffKind,
    before: Option<Seq<u8>>,
    after: Option<Seq<u8>>,
) -> FileDiffView {
    let binary = (match before {
        Some(b) => is_binary_bytes(b),
        None => false,
    }) || (match after {
        Some(a) => is_binary_bytes(a),
        None => false,
    });
    if binary {
        FileDiffView {
            path: path,
            kind: kind,
            before_text: None,
            after_text: None,
            unified: None,
            is_binary: true,
        }
    } else {
        let bt = text_of(before);
        let at = text_of(after);
        let unified = match (bt, at) {
            (Some(b), Some(a)) => Some(unified_of(normalize_spec(b), normalize_spec(a))),
            _ => None,
        };
        FileDiffView {
            path: path,
            kind: kind,
            before_text: bt,
            after_text: at,
            unified: unified,
            is_binary: false,
        }
    }
}

/// Builds the report for one path from the bytes of each side.
pub fn build_file_diff(
    path: String,
    kind: DiffKind,
    before: Option<&Vec<u8>>,
    after: Option<&Vec<u8>>,
) -> (r: FileDiff)
    ensures
        r@ == file_diff_spec(
            path@,
            kind,
            match before {
                Some(b) => Some(b@),
                None => None,
            },
            match after {
                Some(a) => Some(a@),
                None => None,
            },
        ),
{
    let binary = (match before {
        Some(b) => is_probably_binary(b.as_slice()),
        None => false,
    }) || (match after {
        Some(a) => is_probably_binary(a.as_slice()),
        None => false,
    });
    if binary {
        return FileDiff {
            path,
            kind,
            before_text: None,
            after_text: None,
            unified: None,
            is_binary: true,
        };
    }
    let before_text = match before {
        Some(b) => decode_utf(b.as_slice()),
        None => None,
    };
    let after_text = match after {
        Some(a) => decode_utf(a.as_slice()),
        None => None,
    };
    let unified = match (&before_text, &after_text) {
        (Some(b), Some(a)) => {
            let bn = normalize_text_for_line_diff(b.as_str());
            let an = normalize_text_for_line_diff(a.as_str());
            Some(unified_diff_text(bn.as_str(), an.as_str()))
        },
        _ => None,
    };
    FileDiff { path, kind, before_text, after_text, unified, is_binary: false }
}

/// The blob id an association list maps a path to, if any.
pub open spec fn lookup_path(links: Seq<FileLinkView>, p: Seq<char>) -> Option<Seq<char>>
    decreases links.len(),
{
    if links.len() == 0 {
        None
    } else if links[0].path == p {
        Some(links[0].blob_id)
    } else {
        lookup_path(links.drop_first(), p)
    }
}

/// The sorted union of two sorted path lists, without duplicates.
pub open spec fn merge_paths(a: Seq<Seq<char>>, b: Seq<Seq<char>>) -> Seq<Seq<char>>
    decreases a.len() + b.len(),
{
    if a.len() == 0 {
        b
    } else if b.len() == 0 {
        a
    } else if a[0] == b[0] {
        seq![a[0]] + merge_paths(a.drop_first(), b.drop_first())
    } else if str_lt(a[0], b[0]) {
        seq![a[0]] + merge_paths(a.drop_first(), b)
    } else {
        seq![b[0]] + merge_paths(a, b.drop_first())
    }
}

/// The path list of an association list.
pub open spec fn paths_of(links: Seq<FileLinkView>) -> Seq<Seq<char>> {
    links.map_values(|l: FileLinkView| l.path)
}

/// The reports for every changed path, walking the merged path list:
/// a path on one side only is added or removed, a path whose blob ids
/// differ is modified, and a path with equal blob ids is skipped.
pub open spec fn diff_entries(
    s: StoreView,
    fl: Seq<FileLinkView>,
    tl: Seq<FileLinkView>,
    paths: Seq<Seq<char>>,
) -> Seq<FileDiffView>
    decreases paths.len(),
{
    if paths.len() == 0 {
        Seq::empty()
    } else {
        let rest = diff_entries(s, fl, tl, paths.drop_first());
        let p = paths[0];
        match (lookup_path(fl, p), lookup_path(tl, p)) {
            (Some(f), Some(t)) => if f == t {
                rest
            } else {
                seq![
                    file_diff_spec(
                        p,
                        DiffKind::Modified,
                        blob_lookup(s.blobs, f),
                        blob_lookup(s.blobs, t),
                    ),
                ] + rest
            },
            (None, Some(t)) => seq![
                file_diff_spec(p, DiffKind::Added, None, blob_lookup(s.blobs, t)),
            ] + rest,
            (Some(f), None) => seq![
                file_diff_spec(p, DiffKind::Removed, blob_lookup(s.blobs, f), None),
            ] + rest,
            (None, None) => rest,
        }
    }
}

/// Finds the blob id an association vector maps a path to.
fn lookup_path_exec(links: &Vec<FileLink>, p: &str) -> (r: Option<String>)
    ensures
        match r {
            Some(bid) => lookup_path(links@.map_values(|l: FileLink| l@), p@) == Some(bid@),
            None => lookup_path(links@.map_values(|l: FileLink| l@), p@) is None,
        },
{
    let ghost lv = links@.map_values(|l: FileLink| l@);
    let n = links.len();
    let mut j: usize = 0;
    proof {
        assert(lv.skip(0) =~= lv);
    }
    while j < n
        invariant
            j <= n,
            n == links@.len(),
            lv == links@.map_values(|l: FileLink| l@),
            lv.len() == links@.len(),
            lookup_path(lv, p@) == lookup_path(lv.skip(j as int), p@),
        decreases n - j,
    {
        proof {
            assert(lv.skip(j as int)[0] == lv[j as int]);
            assert(lv.skip(j as int).drop_first() =~= lv.skip(j + 1 as int));
        }
        if str_eq_exec(links[j].path.as_str(), p) {
            return Some(links[j].blob_id.clone());
        }
        j = j + 1;
    }
    proof {
        assert(lv.skip(n as int) =~= Seq::<FileLinkView>::empty());
    }
    None
}

/// Merges the two sorted path lists of two association vectors.
fn merged_paths(fl: &Vec<FileLink>, tl: &Vec<FileLink>) -> (r: Vec<String>)
    ensures
        r@.map_values(|s: String| s@) == merge_paths(
            paths_of(fl@.map_values(|l: FileLink| l@)),
            paths_of(tl@.map_values(|l: FileLink| l@)),
        ),
{
    let ghost av = paths_of(fl@.map_values(|l: FileLink| l@));
    let ghost bv = paths_of(tl@.map_values(|l: FileLink| l@));
    let n = fl.len();
    let m = tl.len();
    let mut r: Vec<String> = Vec::new();
    let mut i: usize = 0;
    let mut j: usize = 0;
    proof {
        assert(av.len() == n && bv.len() == m);
        assert(av.skip(0) =~= av);
        assert(bv.skip(0) =~= bv);
        assert(r@.map_values(|s: String| s@) =~= Seq::<Seq<char>>::empty());
    }
    while i < n || j < m
        invariant
            i <= n,
            j <= m,
            n == fl@.len(),
            m == tl@.len(),
            av == paths_of(fl@.map_values(|l: FileLink| l@)),
            bv == paths_of(tl@.map_values(|l: FileLink| l@)),
            av.len() == n,
            bv.len() == m,
            merge_paths(av, bv) == r@.map_values(|s: String| s@) + merge_paths(
                av.skip(i as int),
                bv.skip(j as int),
            ),
        decreases n - i + m - j,
    {
        let ghost acc = r@;
        proof {
            if i < n {
                assert(av.skip(i as int)[0] == av[i as int]);
                assert(av[i as int] == fl@[i as int]@.path);
                assert(av.skip(i as int).drop_first() =~= av.skip(i + 1 as int));
            }
            if j < m {
                assert(bv.skip(j as int)[0] == bv[j as int]);
                assert(bv[j as int] == tl@[j as int]@.path);
                assert(bv.skip(j as int).drop_first() =~= bv.skip(j + 1 as int));
            }
        }
        if i < n && j < m {
            if str_eq_exec(fl[i].path.as_str(), tl[j].path.as_str()) {
                r.push(fl[i].path.clone());
                proof {
                    assert(r@.map_values(|s: String| s@) =~= acc.map_values(|s: String| s@)
                        + seq![av[i as int]]);
                    assert(acc.map_values(|s: String| s@) + (seq![av[i as int]] + merge_paths(
                        av.skip(i + 1 as int),
                        bv.skip(j + 1 as int),
                    )) =~= (acc.map_values(|s: String| s@) + seq![av[i as int]]) + merge_paths(
                        av.skip(i + 1 as int),
                        bv.skip(j + 1 as int),
                    ));
                }
                i = i + 1;
                j = j + 1;
            } else if str_lt_exec(fl[i].path.as_str(), tl[j].path.as_str()) {
                r.push(fl[i].path.clone());
                proof {
                    assert(r@.map_values(|s: String| s@) =~= acc.map_values(|s: String| s@)
                        + seq![av[i as int]]);
                    assert(acc.map_values(|s: String| s@) + (seq![av[i as int]] + merge_paths(
                        av.skip(i + 1 as int),
                        bv.skip(j as int),
                    )) =~= (acc.map_values(|s: String| s@) + seq![av[i as int]]) + merge_paths(
                        av.skip(i + 1 as int),
                        bv.skip(j as int),
                    ));
                }
                i = i + 1;
            } else {
                r.push(tl[j].path.clone());
                proof {
                    assert(r@.map_values(|s: String| s@) =~= acc.map_values(|s: String| s@)
                        + seq![bv[j as int]]);
                    assert(acc.map_values(|s: String| s@) + (seq![bv[j as int]] + merge_paths(
                        av.skip(i as int),
                        bv.skip(j + 1 as int),
                    )) =~= (acc.map_values(|s: String| s@) + seq![bv[j as int]]) + merge_paths(
                        av.skip(i as int),
                        bv.skip(j + 1 as int),
                    ));
                }
                j = j + 1;
            }
        } else if i < n {
            r.push(fl[i].path.clone());
            proof {
                assert(bv.skip(j as int) =~= Seq::<Seq<char>>::empty());
                assert(merge_paths(av.skip(i as int), bv.skip(j as int)) == av.skip(i as int));
                assert(merge_paths(av.skip(i + 1 as int), bv.skip(j as int)) == av.skip(
                    i + 1 as int,
                ));
                assert(av.skip(i as int) =~= seq![av[i as int]] + av.skip(i + 1 as int));
                assert(r@.map_values(|s: String| s@) =~= acc.map_values(|s: String| s@)
                    + seq![av[i as int]]);
                assert(acc.map_values(|s: String| s@) + (seq![av[i as int]] + av.skip(
                    i + 1 as int,
                )) =~= (acc.map_values(|s: String| s@) + seq![av[i as int]]) + av.skip(
                    i + 1 as int,
                ));
            }
            i = i + 1;
        } else {
            r.push(tl[j].path.clone());
            proof {
                assert(av.skip(i as int) =~= Seq::<Seq<char>>::empty());
                assert(merge_paths(av.skip(i as int), bv.skip(j as int)) == bv.skip(j as int));
                assert(merge_paths(av.skip(i as int), bv.skip(j + 1 as int)) == bv.skip(
                    j + 1 as int,
                ));
                assert(bv.skip(j as int) =~= seq![bv[j as int]] + bv.skip(j + 1 as int));
                assert(r@.map_values(|s: String| s@) =~= acc.map_values(|s: String| s@)
                    + seq![bv[j as int]]);
                assert(acc.map_values(|s: String| s@) + (seq![bv[j as int]] + bv.skip(
                    j + 1 as int,
                )) =~= (acc.map_values(|s: String| s@) + seq![bv[j as int]]) + bv.skip(
                    j + 1 as int,
                ));
            }
            j = j + 1;
        }
    }
    proof {
        assert(av.skip(n as int) =~= Seq::<Seq<char>>::empty());
        assert(bv.skip(m as int) =~= Seq::<Seq<char>>::empty());
        assert(merge_paths(av.skip(n as int), bv.skip(m as int)) =~= Seq::<Seq<char>>::empty());
        assert(merge_paths(av, bv) =~= r@.map_values(|s: String| s@));
    }
    r
}

/// A path that an association list resolves leads to a stored blob.
proof fn lemma_lookup_path_has_blob(s: StoreView, id: Seq<char>, p: Seq<char>)
    requires
        s.wf(),
        lookup_path(s.links_for(id), p) is Some,
    ensures
        blob_lookup(s.blobs, lookup_path(s.links_for(id), p)->0) is Some,
{
    let links = s.links_for(id);
    lemma_lookup_path_member(links, p);
    let w = choose|w: int|
        0 <= w < links.len() && links[w].path == p && #[trigger] links[w].blob_id == lookup_path(
            links,
            p,
        )->0;
    lemma_links_filter_sub(s.node_files, id, w);
    let w2 = choose|w2: int|
        0 <= w2 < s.node_files.len() && s.node_files[w2] == links[w];
    assert(s.has_blob(s.node_files[w2].blob_id));
    crate::commit::lemma_blob_lookup_iff_exists(s.blobs, links[w].blob_id);
}

/// A resolved path comes from some association in the list.
proof fn lemma_lookup_path_member(links: Seq<FileLinkView>, p: Seq<char>)
    requires
        lookup_path(links, p) is Some,
    ensures
        exists|w: int|
            0 <= w < links.len() && links[w].path == p && #[trigger] links[w].blob_id
                == lookup_path(links, p)->0,
    decreases links.len(),
{
    if links[0].path == p {
        assert(links[0].blob_id == lookup_path(links, p)->0);
    } else {
        lemma_lookup_path_member(links.drop_first(), p);
        let w = choose|w: int|
            0 <= w < links.drop_first().len() && links.drop_first()[w].path == p && #[trigger] links.drop_first()[w].blob_id == lookup_path(links.drop_first(), p)->0;
        assert(links[w + 1].path == p && links[w + 1].blob_id == lookup_path(links, p)->0);
    }
}

/// Computes the structured diff between two commits.
///
/// Fails with `NotFound` naming the missing side (`from` checked first)
/// when either id is not in history.  Otherwise reports, per changed path
/// of the merged snapshots, the classification and text fields that
/// [`file_diff_spec`] prescribes, in the merged path order.
pub fn diff_nodes(store: &Store, from: &str, to: &str) -> (r: Result<NodeDiff, WorkSpaceError>)
    requires
        store@.wf(),
    ensures
        r is Ok <==> store@.has_node(from@) && store@.has_node(to@),
        !store@.has_node(from@) ==> (r matches Err(WorkSpaceError::NotFound(m)) && m@ == from@),
        store@.has_node(from@) && !store@.has_node(to@) ==> (r matches Err(
            WorkSpaceError::NotFound(m),
        ) && m@ == to@),
        r matches Ok(d) ==> {
            let fl = store@.links_for(from@);
            let tl = store@.links_for(to@);
            &&& d@.from == from@
            &&& d@.to == to@
            &&& d@.files == diff_entries(store@, fl, tl, merge_paths(paths_of(fl), paths_of(tl)))
        },
{
    if !node_exists(store, from) {
        return Err(WorkSpaceError::NotFound(from.to_owned()));
    }
    if !node_exists(store, to) {
        return Err(WorkSpaceError::NotFound(to.to_owned()));
    }
    let fl = links_of(store, from);
    let tl = links_of(store, to);
    let ghost flv = store@.links_for(from@);
    let ghost tlv = store@.links_for(to@);
    let paths = merged_paths(&fl, &tl);
    let ghost pv = paths@.map_values(|s: String| s@);

    let mut files: Vec<FileDiff> = Vec::new();
    let n = paths.len();
    let mut i: usize = 0;
    proof {
        assert(pv.skip(0) =~= pv);
        assert(files@.map_values(|f: FileDiff| f@) =~= Seq::<FileDiffView>::empty());
    }
    while i < n
        invariant
            i <= n,
            n == paths@.len(),
            pv == paths@.map_values(|s: String| s@),
            pv.len() == paths@.len(),
            store@.wf(),
            fl@.map_values(|l: FileLink| l@) == flv,
            tl@.map_values(|l: FileLink| l@) == tlv,
            flv == store@.links_for(from@),
            tlv == store@.links_for(to@),
            diff_entries(store@, flv, tlv, pv) == files@.map_values(|f: FileDiff| f@)
                + diff_entries(store@, flv, tlv, pv.skip(i as int)),
        decreases n - i,
    {
        let ghost acc = files@;
        proof {
            assert(pv.skip(i as int)[0] == pv[i as int]);
            assert(pv[i as int] == paths@[i as int]@);
            assert(pv.skip(i as int).drop_first() =~= pv.skip(i + 1 as int));
        }
        let p = &paths[i];
        let fb = lookup_path_exec(&fl, p.as_str());
        let tb = lookup_path_exec(&tl, p.as_str());
        let ghost entry_expected: Seq<FileDiffView> = match (
            lookup_path(flv, pv[i as int]),
            lookup_path(tlv, pv[i as int]),
        ) {
            (Some(f), Some(t)) => if f == t {
                Seq::empty()
            } else {
                seq![
                    file_diff_spec(
                        pv[i as int],
                        DiffKind::Modified,
                        blob_lookup(store@.blobs, f),
                        blob_lookup(store@.blobs, t),
                    ),
                ]
            },
            (None, Some(t)) => seq![
                file_diff_spec(pv[i as int], DiffKind::Added, None, blob_lookup(store@.blobs, t)),
            ],
            (Some(f), None) => seq![
                file_diff_spec(pv[i as int], DiffKind::Removed, blob_lookup(store@.blobs, f), None),
            ],
            (None, None) => Seq::empty(),
        };
        match (fb, tb) {
            (Some(f), Some(t)) => {
                if !str_eq_exec(f.as_str(), t.as_str()) {
                    proof {
                        lemma_lookup_path_has_blob(store@, from@, pv[i as int]);
                        lemma_lookup_path_has_blob(store@, to@, pv[i as int]);
                    }
                    let before = blob_content_of(store, f.as_str());
                    let after = blob_content_of(store, t.as_str());
                    let d = build_file_diff(
                        p.clone(),
                        DiffKind::Modified,
                        Some(&before),
                        Some(&after),
                    );
                    files.push(d);
                }
            },
            (None, Some(t)) => {
                proof {
                    lemma_lookup_path_has_blob(store@, to@, pv[i as int]);
                }
                let after = blob_content_of(store, t.as_str());
                let d = build_file_diff(p.clone(), DiffKind::Added, None, Some(&after));
                files.push(d);
            },
            (Some(f), None) => {
                proof {
                    lemma_lookup_path_has_blob(store@, from@, pv[i as int]);
                }
                let before = blob_content_of(store, f.as_str());
                let d = build_file_diff(p.clone(), DiffKind::Removed, Some(&before), None);
                files.push(d);
            },
            (None, None) => {},
        }
        proof {
            assert(files@.map_values(|f: FileDiff| f@) =~= acc.map_values(|f: FileDiff| f@)
                + entry_expected);
            assert(acc.map_values(|f: FileDiff| f@) + (entry_expected + diff_entries(
                store@,
                flv,
                tlv,
                pv.skip(i + 1 as int),
            )) =~= (acc.map_values(|f: FileDiff| f@) + entry_expected) + diff_entries(
                store@,
                flv,
                tlv,
                pv.skip(i + 1 as int),
            ));
        }
        i = i + 1;
    }
    proof {
        assert(pv.skip(n as int) =~= Seq::<Seq<char>>::empty());
        assert(diff_entries(store@, flv, tlv, pv) =~= files@.map_values(|f: FileDiff| f@));
    }
    Ok(NodeDiff { from: from.to_owned(), to: to.to_owned(), files })
}


/// Law: when two commits map every path to the same blob, their diff
/// reports no files.  Re-committing identical content therefore diffs as
/// empty.
pub proof fn lemma_diff_identical_snapshots(
    s: StoreView,
    fl: Seq<FileLinkView>,
    tl: Seq<FileLinkView>,
    paths: Seq<Seq<char>>,
)
    requires
        forall|p: Seq<char>| #[trigger] lookup_path(fl, p) == lookup_path(tl, p),
    ensures
        diff_entries(s, fl, tl, paths) == Seq::<FileDiffView>::empty(),
    decreases paths.len(),
{
    if paths.len() > 0 {
        lemma_diff_identical_snapshots(s, fl, tl, paths.drop_first());
        assert(lookup_path(fl, paths[0]) == lookup_path(tl, paths[0]));
    }
}

/// Law: a file with binary content on either side reports `is_binary` and
/// no text or unified fields at all.
pub proof fn lemma_binary_reports_no_text(
    path: Seq<char>,
    kind: DiffKind,
    before: Option<Seq<u8>>,
    after: Option<Seq<u8>>,
)
    ensures
        file_diff_spec(path, kind, before, after).is_binary <==> ((before matches Some(b)
            && is_binary_bytes(b)) || (after matches Some(a) && is_binary_bytes(a))),
        file_diff_spec(path, kind, before, after).is_binary ==> {
            let d = file_diff_spec(path, kind, before, after);
            &&& d.before_text is None
            &&& d.after_text is None
            &&& d.unified is None
        },
{
}

/// A strictly ascending path list.
pub open spec fn paths_sorted(ps: Seq<Seq<char>>) -> bool {
    forall|i: int, j: int| 0 <= i < j < ps.len() ==> str_lt(#[trigger] ps[i], #[trigger] ps[j])
}

/// Merging two strictly sorted path lists yields a strictly sorted list
/// whose members are exactly the members of either input.
pub proof fn lemma_merge_paths_sorted(a: Seq<Seq<char>>, b: Seq<Seq<char>>)
    requires
        paths_sorted(a),
        paths_sorted(b),
    ensures
        paths_sorted(merge_paths(a, b)),
        forall|p: Seq<char>|
            #[trigger] merge_paths(a, b).contains(p) <==> (a.contains(p) || b.contains(p)),
    decreases a.len() + b.len(),
{
    let m = merge_paths(a, b);
    if a.len() == 0 || b.len() == 0 {
    } else {
        assert(paths_sorted(a.drop_first())) by {
            assert(forall|i: int|
                0 <= i < a.drop_first().len() ==> #[trigger] a.drop_first()[i] == a[i + 1]);
        }
        assert(paths_sorted(b.drop_first())) by {
            assert(forall|i: int|
                0 <= i < b.drop_first().len() ==> #[trigger] b.drop_first()[i] == b[i + 1]);
        }
        let h = if a[0] == b[0] || crate::text::str_lt(a[0], b[0]) {
            a[0]
        } else {
            b[0]
        };
        let rest = if a[0] == b[0] {
            merge_paths(a.drop_first(), b.drop_first())
        } else if crate::text::str_lt(a[0], b[0]) {
            merge_paths(a.drop_first(), b)
        } else {
            merge_paths(a, b.drop_first())
        };
        if a[0] == b[0] {
            lemma_merge_paths_sorted(a.drop_first(), b.drop_first());
        } else if crate::text::str_lt(a[0], b[0]) {
            lemma_merge_paths_sorted(a.drop_first(), b);
        } else {
            lemma_merge_paths_sorted(a, b.drop_first());
            assert(crate::text::str_lt(b[0], a[0])) by {
                if !crate::text::str_lt(b[0], a[0]) {
                    crate::text::lemma_str_lt_connected(a[0], b[0]);
                }
            }
        }
        assert(m == seq![h] + rest);
        assert(m[0] == h);
        assert(forall|i: int| 0 <= i < rest.len() ==> #[trigger] m[i + 1] == rest[i]);
        // every element of the tail is strictly above the head
        assert forall|i: int| 0 <= i < rest.len() implies crate::text::str_lt(h, rest[i]) by {
            assert(rest.contains(rest[i]));
            let q = rest[i];
            if a[0] == b[0] {
                if a.drop_first().contains(q) {
                    lemma_member_above_head(a, q);
                } else {
                    assert(b.drop_first().contains(q));
                    lemma_member_above_head(b, q);
                }
            } else if crate::text::str_lt(a[0], b[0]) {
                if a.drop_first().contains(q) {
                    lemma_member_above_head(a, q);
                } else {
                    assert(b.contains(q));
                    lemma_head_or_above(b, q);
                    if q != b[0] {
                        crate::text::lemma_str_lt_trans(a[0], b[0], q);
                    }
                }
            } else {
                assert(crate::text::str_lt(b[0], a[0])) by {
                    if !crate::text::str_lt(b[0], a[0]) {
                        crate::text::lemma_str_lt_connected(a[0], b[0]);
                    }
                }
                if b.drop_first().contains(q) {
                    lemma_member_above_head(b, q);
                } else {
                    assert(a.contains(q));
                    lemma_head_or_above(a, q);
                    if q != a[0] {
                        crate::text::lemma_str_lt_trans(b[0], a[0], q);
                    }
                }
            }
        }
        assert forall|i: int, j: int| 0 <= i < j < m.len() implies crate::text::str_lt(
            #[trigger] m[i],
            #[trigger] m[j],
        ) by {
            if i == 0 {
                assert(m[j] == rest[j - 1]);
            } else {
                assert(m[i] == rest[i - 1] && m[j] == rest[j - 1]);
            }
        }
        assert forall|p: Seq<char>| #[trigger] m.contains(p) implies (a.contains(p) || b.contains(
            p,
        )) by {
            let w = choose|w: int| 0 <= w < m.len() && m[w] == p;
            if w == 0 {
                assert(a.contains(a[0]));
                assert(b.contains(b[0]));
            } else {
                assert(rest.contains(rest[w - 1]));
                if a.drop_first().contains(p) {
                    let v = choose|v: int|
                        0 <= v < a.drop_first().len() && a.drop_first()[v] == p;
                    assert(a[v + 1] == p);
                    assert(a.contains(a[v + 1]));
                }
                if b.drop_first().contains(p) {
                    let v = choose|v: int|
                        0 <= v < b.drop_first().len() && b.drop_first()[v] == p;
                    assert(b[v + 1] == p);
                    assert(b.contains(b[v + 1]));
                }
            }
        }
        assert forall|p: Seq<char>| (a.contains(p) || b.contains(p)) implies #[trigger] m.contains(
            p,
        ) by {
            if p == h {
                assert(m[0] == p);
            } else {
                if a.contains(p) {
                    let w = choose|w: int| 0 <= w < a.len() && a[w] == p;
                    if a[0] == b[0] || crate::text::str_lt(a[0], b[0]) {
                        if w == 0 {
                            assert(false);
                        } else {
                            assert(a.drop_first()[w - 1] == p);
                            assert(a.drop_first().contains(p));
                            assert(rest.contains(p));
                        }
                    } else {
                        assert(a.contains(p));
                        assert(rest.contains(p));
                    }
                } else {
                    let w = choose|w: int| 0 <= w < b.len() && b[w] == p;
                    if a[0] == b[0] {
                        if w == 0 {
                            assert(false);
                        } else {
                            assert(b.drop_first()[w - 1] == p);
                            assert(b.drop_first().contains(p));
                            assert(rest.contains(p));
                        }
                    } else if crate::text::str_lt(a[0], b[0]) {
                        assert(b.contains(p));
                        assert(rest.contains(p));
                    } else {
                        if w == 0 {
                            assert(false);
                        } else {
                            assert(b.drop_first()[w - 1] == p);
                            assert(b.drop_first().contains(p));
                            assert(rest.contains(p));
                        }
                    }
                }
                let v = choose|v: int| 0 <= v < rest.len() && rest[v] == p;
                assert(m[v + 1] == p);
            }
        }
    }
}

/// In a strictly sorted list, every member other than the head is strictly
/// above the head.
proof fn lemma_head_or_above(ps: Seq<Seq<char>>, p: Seq<char>)
    requires
        paths_sorted(ps),
        ps.contains(p),
        ps.len() > 0,
    ensures
        p == ps[0] || crate::text::str_lt(ps[0], p),
{
    let w = choose|w: int| 0 <= w < ps.len() && ps[w] == p;
    if w > 0 {
        assert(crate::text::str_lt(ps[0], ps[w]));
    }
}

/// A strictly sorted list's tail never contains the head.
proof fn lemma_member_above_head(ps: Seq<Seq<char>>, p: Seq<char>)
    requires
        paths_sorted(ps),
        ps.len() > 0,
        ps.drop_first().contains(p),
    ensures
        crate::text::str_lt(ps[0], p),
{
    let w = choose|w: int| 0 <= w < ps.drop_first().len() && ps.drop_first()[w] == p;
    assert(ps[w + 1] == p);
    assert(crate::text::str_lt(ps[0], ps[w + 1]));
}


/// Every association the filter keeps carries the commit's id.
proof fn lemma_links_filter_ids(nf: Seq<FileLinkView>, id: Seq<char>)
    ensures
        forall|i: int|
            0 <= i < links_filter(nf, id).len() ==> (#[trigger] links_filter(nf, id)[i]).node_id
                == id,
    decreases nf.len(),
{
    if nf.len() > 0 {
        lemma_links_filter_ids(nf.drop_first(), id);
        let rest = links_filter(nf.drop_first(), id);
        if nf[0].node_id == id {
            assert(links_filter(nf, id) == seq![nf[0]] + rest);
            assert forall|i: int| 0 <= i < links_filter(nf, id).len() implies (
            #[trigger] links_filter(nf, id)[i]).node_id == id by {
                if i > 0 {
                    assert(links_filter(nf, id)[i] == rest[i - 1]);
                }
            }
        }
    }
}

/// Under well-formedness, one commit's association paths are strictly
/// sorted.
proof fn lemma_links_for_sorted(nf: Seq<FileLinkView>, id: Seq<char>)
    requires
        forall|i: int, j: int|
            0 <= i < j < nf.len() && (#[trigger] nf[i]).node_id == (#[trigger] nf[j]).node_id
                ==> str_lt(nf[i].path, nf[j].path),
    ensures
        paths_sorted(paths_of(links_filter(nf, id))),
    decreases nf.len(),
{
    let res = links_filter(nf, id);
    if nf.len() == 0 {
    } else {
        assert(forall|i: int|
            0 <= i < nf.drop_first().len() ==> #[trigger] nf.drop_first()[i] == nf[i + 1]);
        lemma_links_for_sorted(nf.drop_first(), id);
        let rest = links_filter(nf.drop_first(), id);
        lemma_links_filter_ids(nf.drop_first(), id);
        if nf[0].node_id == id {
            assert(res == seq![nf[0]] + rest);
            assert forall|i: int, j: int|
                0 <= i < j < paths_of(res).len() implies str_lt(
                #[trigger] paths_of(res)[i],
                #[trigger] paths_of(res)[j],
            ) by {
                assert(paths_of(res)[i] == res[i].path);
                assert(paths_of(res)[j] == res[j].path);
                if i == 0 {
                    assert(res[j] == rest[j - 1]);
                    lemma_links_filter_sub(nf.drop_first(), id, j - 1);
                    let w = choose|w: int|
                        0 <= w < nf.drop_first().len() && nf.drop_first()[w] == rest[j - 1];
                    assert(nf[w + 1] == rest[j - 1]);
                    assert(rest[j - 1].node_id == id);
                    assert(str_lt(nf[0].path, nf[w + 1].path));
                } else {
                    assert(res[i] == rest[i - 1] && res[j] == rest[j - 1]);
                    assert(paths_of(rest)[i - 1] == rest[i - 1].path);
                    assert(paths_of(rest)[j - 1] == rest[j - 1].path);
                    assert(str_lt(paths_of(rest)[i - 1], paths_of(rest)[j - 1]));
                }
            }
        }
    }
}

/// Reported entries keep the merged path order: each path contributes at
/// most one entry, in place.
proof fn lemma_diff_entries_sorted(
    s: StoreView,
    fl: Seq<FileLinkView>,
    tl: Seq<FileLinkView>,
    paths: Seq<Seq<char>>,
)
    requires
        paths_sorted(paths),
    ensures
        forall|i: int|
            0 <= i < diff_entries(s, fl, tl, paths).len() ==> paths.contains(
                (#[trigger] diff_entries(s, fl, tl, paths)[i]).path,
            ),
        paths_sorted(diff_entries(s, fl, tl, paths).map_values(|e: FileDiffView| e.path)),
    decreases paths.len(),
{
    let res = diff_entries(s, fl, tl, paths);
    if paths.len() > 0 {
        assert(forall|i: int|
            0 <= i < paths.drop_first().len() ==> #[trigger] paths.drop_first()[i] == paths[i
                + 1]);
        assert(paths_sorted(paths.drop_first()));
        lemma_diff_entries_sorted(s, fl, tl, paths.drop_first());
        let rest = diff_entries(s, fl, tl, paths.drop_first());
        assert forall|i: int| 0 <= i < res.len() implies paths.contains(
            (#[trigger] res[i]).path,
        ) by {
            if res.len() == rest.len() {
                assert(res == rest);
                assert(paths.drop_first().contains(res[i].path));
                let w = choose|w: int|
                    0 <= w < paths.drop_first().len() && paths.drop_first()[w] == res[i].path;
                assert(paths[w + 1] == res[i].path);
            } else {
                assert(res[0].path == paths[0]);
                if i == 0 {
                    assert(paths.contains(paths[0]));
                } else {
                    assert(res[i] == rest[i - 1]);
                    assert(paths.drop_first().contains(rest[i - 1].path));
                    let w = choose|w: int|
                        0 <= w < paths.drop_first().len() && paths.drop_first()[w] == rest[i
                            - 1].path;
                    assert(paths[w + 1] == res[i].path);
                }
            }
        }
        let pr = res.map_values(|e: FileDiffView| e.path);
        assert forall|i: int, j: int| 0 <= i < j < pr.len() implies str_lt(
            #[trigger] pr[i],
            #[trigger] pr[j],
        ) by {
            assert(pr[i] == res[i].path && pr[j] == res[j].path);
            let pres = rest.map_values(|e: FileDiffView| e.path);
            if res.len() == rest.len() {
                assert(res[i] == rest[i] && res[j] == rest[j]);
                assert(pres[i] == rest[i].path && pres[j] == rest[j].path);
                assert(str_lt(pres[i], pres[j]));
            } else {
                if i == 0 {
                    assert(res[j] == rest[j - 1]);
                    assert(paths.drop_first().contains(rest[j - 1].path));
                    let w = choose|w: int|
                        0 <= w < paths.drop_first().len() && paths.drop_first()[w] == rest[j
                            - 1].path;
                    assert(paths[w + 1] == rest[j - 1].path);
                    assert(str_lt(paths[0], paths[w + 1]));
                } else {
                    assert(res[i] == rest[i - 1] && res[j] == rest[j - 1]);
                    assert(pres[i - 1] == rest[i - 1].path && pres[j - 1] == rest[j - 1].path);
                    assert(str_lt(pres[i - 1], pres[j - 1]));
                }
            }
        }
    }
}

/// Law: the diff between two commits of a well-formed store reports its
/// files in strictly ascending path order.
pub proof fn lemma_diff_output_sorted(s: StoreView, from: Seq<char>, to: Seq<char>)
    requires
        s.wf(),
    ensures
        paths_sorted(
            diff_entries(
                s,
                s.links_for(from),
                s.links_for(to),
                merge_paths(paths_of(s.links_for(from)), paths_of(s.links_for(to))),
            ).map_values(|e: FileDiffView| e.path),
        ),
{
    lemma_links_for_sorted(s.node_files, from);
    lemma_links_for_sorted(s.node_files, to);
    lemma_merge_paths_sorted(paths_of(s.links_for(from)), paths_of(s.links_for(to)));
    lemma_diff_entries_sorted(
        s,
        s.links_for(from),
        s.links_for(to),
        merge_paths(paths_of(s.links_for(from)), paths_of(s.links_for(to))),
    );
}

} // verus!
