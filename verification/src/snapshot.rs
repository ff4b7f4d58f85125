//! Snapshot material: the files a commit captures, blob ids for their
//! contents, and path normalization for walker output.

use vstd::prelude::*;

use crate::digest::hex_encode;
use crate::digest::hex_of;
use crate::digest::sha256;
use crate::digest::sha256_of;
use crate::text::chars_of;
use crate::text::push_bytes;
use crate::text::push_char;
use crate::text::str_lt;
use crate::text::str_lt_exec;

verus! {

/// One file of a workspace snapshot: a normalized root-relative path and the
/// file's raw bytes.
#[derive(Debug)]
pub struct SnapshotFile {
    pub path: String,
    pub content: Vec<u8>,
}

pub struct SnapshotFileView {
    pub path: Seq<char>,
    pub content: Seq<u8>,
}

impl View for SnapshotFile {
    type V = SnapshotFileView;

    open spec fn view(&self) -> SnapshotFileView {
        SnapshotFileView { path: self.path@, content: self.content@ }
    }
}

/// The snapshot walker hands the engine paths in strictly ascending order,
/// so every path occurs once.
pub open spec fn snapshot_sorted(files: Seq<SnapshotFileView>) -> bool {
    forall|i: int, j: int|
        0 <= i < j < files.len() ==> str_lt(#[trigger] files[i].path, #[trigger] files[j].path)
}

/// Decides [`snapshot_sorted`] at runtime, so callers can validate a
/// snapshot before handing it to the commit engine.
pub fn snapshot_is_sorted(files: &Vec<SnapshotFile>) -> (r: bool)
    ensures
        r == snapshot_sorted(files@.map_values(|f: SnapshotFile| f@)),
{
    let ghost fv = files@.map_values(|f: SnapshotFile| f@);
    let n = files.len();
    if n == 0 {
        return true;
    }
    let mut i: usize = 0;
    while i < n - 1
        invariant
            n >= 1,
            i <= n - 1,
            n == files@.len(),
            fv == files@.map_values(|f: SnapshotFile| f@),
            fv.len() == n,
            forall|k: int| 0 <= k < i ==> str_lt((#[trigger] fv[k]).path, fv[k + 1].path),
        decreases n - i,
    {
        if !str_lt_exec(files[i].path.as_str(), files[i + 1].path.as_str()) {
            proof {
                assert(!str_lt((#[trigger] fv[i as int]).path, fv[i as int + 1].path));
            }
            return false;
        }
        i = i + 1;
    }
    proof {
        assert forall|a: int, b: int| 0 <= a < b < fv.len() implies str_lt(
            (#[trigger] fv[a]).path,
            (#[trigger] fv[b]).path,
        ) by {
            lemma_adjacent_sorted(fv, a, b);
        }
    }
    true
}

/// Adjacent strict order extends to all pairs.
proof fn lemma_adjacent_sorted(fv: Seq<SnapshotFileView>, a: int, b: int)
    requires
        forall|k: int| 0 <= k < fv.len() - 1 ==> str_lt((#[trigger] fv[k]).path, fv[k + 1].path),
        0 <= a < b < fv.len(),
    ensures
        str_lt(fv[a].path, fv[b].path),
    decreases b - a,
{
    if b == a + 1 {
        assert(str_lt((#[trigger] fv[a]).path, fv[a + 1].path));
    } else {
        lemma_adjacent_sorted(fv, a, b - 1);
        assert(str_lt((#[trigger] fv[b - 1]).path, fv[b - 1 + 1].path));
        crate::text::lemma_str_lt_trans(fv[a].path, fv[b - 1].path, fv[b].path);
    }
}

/// The domain prefix of every blob id: the ASCII bytes of `"blob "`.
pub open spec fn blob_prefix() -> Seq<u8> {
    seq![98u8, 108u8, 111u8, 98u8, 32u8]
}

/// A blob's id: the lowercase hex SHA-256 digest of its prefixed bytes.
pub open spec fn blob_id_spec(content: Seq<u8>) -> Seq<char> {
    hex_of(sha256_of(blob_prefix() + content))
}

/// Computes the content-addressed id of a blob.
pub fn blob_id_for_content(content: &[u8]) -> (r: String)
    ensures
        r@ == blob_id_spec(content@),
{
    let mut data: Vec<u8> = Vec::new();
    data.push(98u8);
    data.push(108u8);
    data.push(111u8);
    data.push(98u8);
    data.push(32u8);
    proof {
        assert(data@ =~= blob_prefix());
    }
    push_bytes(&mut data, content);
    let digest = sha256(data.as_slice());
    hex_encode(digest.as_slice())
}

/// Path separators normalized to the single canonical `/` form.
pub open spec fn normalize_path_spec(p: Seq<char>) -> Seq<char> {
    p.map_values(
        |c: char|
            if c == '\\' {
                '/'
            } else {
                c
            },
    )
}

/// Rewrites every backslash separator in a walker path to a forward slash.
pub fn normalize_rel_path(p: &str) -> (r: String)
    ensures
        r@ == normalize_path_spec(p@),
{
    let v = chars_of(p);
    let n = v.len();
    let mut r = String::new();
    let mut i: usize = 0;
    while i < n
        invariant
            i <= n,
            n == p@.len(),
            v@ == p@,
            r@ == normalize_path_spec(p@.take(i as int)),
        decreases n - i,
    {
        let c = v[i];
        if c == '\\' {
            push_char(&mut r, '/');
        } else {
            push_char(&mut r, c);
        }
        proof {
            assert(r@ =~= normalize_path_spec(p@.take(i + 1 as int)));
        }
        i = i + 1;
    }
    proof {
        assert(p@.take(n as int) =~= p@);
    }
    r
}

} // verus!
