//! The private directory tree: path-addressed file and directory nodes with
//! the POSIX-like operations read, write, mkdir, mv, cp, rm and ls, each
//! specified over a mathematical lookup function from paths to nodes.

use vstd::prelude::*;
use vstd::utf8::{decode_utf8, encode_utf8};

use crate::blockstore::clone_bytes;
use crate::codec::{
    bytes_eq, dec_bytes_spec, dec_i64_spec, dec_str_spec, dec_u64_spec, enc_bytes, enc_i64,
    enc_str, lemma_dec_bytes_round_trip, lemma_dec_i64_round_trip, lemma_dec_str_round_trip,
    lemma_u64_le_round_trip, push_bytes, push_i64, push_str_enc, push_u64_le, read_bytes, read_i64,
    read_str, read_u64_le, string_from_utf8, u64_le_seq,
};
use crate::errors::FsError;

verus! {

broadcast use vstd::utf8::encode_utf8_decode_utf8;

/// One node of the tree: a file's bytes or a directory marker, each with
/// its modification time in whole seconds.
pub enum NodeData {
    File { content: Vec<u8>, mtime: i64 },
    Dir { mtime: i64 },
}

/// The mathematical content of one node.
pub enum NodeView {
    File { content: Seq<u8>, mtime: i64 },
    Dir { mtime: i64 },
}

/// The content of a stored node.
pub open spec fn node_view(n: NodeData) -> NodeView {
    match n {
        NodeData::File { content, mtime } => NodeView::File { content: content@, mtime },
        NodeData::Dir { mtime } => NodeView::Dir { mtime },
    }
}

/// What `ls` reports of one child: its kind and timestamp.
pub struct Metadata {
    pub is_dir: bool,
    pub mtime: i64,
}

/// Whether a metadata record describes a node.
pub open spec fn meta_matches(m: Metadata, n: NodeView) -> bool {
    match n {
        NodeView::File { content, mtime } => !m.is_dir && m.mtime == mtime,
        NodeView::Dir { mtime } => m.is_dir && m.mtime == mtime,
    }
}

/// A path as mathematics: the sequence of its segments' characters.
pub open spec fn path_of(p: Seq<String>) -> Seq<Seq<char>> {
    Seq::new(p.len(), |i: int| p[i]@)
}

/// Whether `q` is a (possibly equal) leading prefix of `p`.
pub open spec fn is_prefix(q: Seq<Seq<char>>, p: Seq<Seq<char>>) -> bool {
    q.len() <= p.len() && p.subrange(0, q.len() as int) == q
}

// ---------------------------------------------------------------------------
// lookup over the entry list
// ---------------------------------------------------------------------------

/// The node stored under `p` in an entry list, scanning from the front.
pub open spec fn lookup_in(s: Seq<(Vec<String>, NodeData)>, p: Seq<Seq<char>>) -> Option<NodeView>
    decreases s.len(),
{
    if s.len() == 0 {
        None
    } else if path_of(s[0].0@) == p {
        Some(node_view(s[0].1))
    } else {
        lookup_in(s.drop_first(), p)
    }
}

/// A path is absent exactly when no entry carries it.
pub proof fn lemma_lookup_absent(s: Seq<(Vec<String>, NodeData)>, p: Seq<Seq<char>>)
    ensures
        (lookup_in(s, p) is None) <==> (forall|i: int|
            0 <= i < s.len() ==> path_of(#[trigger] s[i].0@) != p),
    decreases s.len(),
{
    if s.len() > 0 {
        lemma_lookup_absent(s.drop_first(), p);
        assert(forall|i: int|
            1 <= i < s.len() ==> #[trigger] s[i] == s.drop_first()[i - 1]);
    }
}

/// When entry paths are pairwise distinct, any entry carrying `p` gives the
/// lookup result.
pub proof fn lemma_lookup_found(s: Seq<(Vec<String>, NodeData)>, i: int, p: Seq<Seq<char>>)
    requires
        0 <= i < s.len(),
        path_of(s[i].0@) == p,
        forall|a: int, b: int|
            0 <= a < b < s.len() ==> path_of(#[trigger] s[a].0@) != path_of(#[trigger] s[b].0@),
    ensures
        lookup_in(s, p) == Some(node_view(s[i].1)),
    decreases s.len(),
{
    if i == 0 {
    } else {
        assert(path_of(s[0].0@) != p);
        assert(forall|j: int|
            1 <= j < s.len() ==> #[trigger] s[j] == s.drop_first()[j - 1]);
        lemma_lookup_found(s.drop_first(), i - 1, p);
    }
}

/// Appending an entry leaves every present path as it was and makes the new
/// path resolve to the new node if it was absent.
pub proof fn lemma_lookup_push(
    s: Seq<(Vec<String>, NodeData)>,
    e: (Vec<String>, NodeData),
    p: Seq<Seq<char>>,
)
    ensures
        lookup_in(s.push(e), p) == (if lookup_in(s, p) is Some {
            lookup_in(s, p)
        } else if path_of(e.0@) == p {
            Some(node_view(e.1))
        } else {
            None
        }),
    decreases s.len(),
{
    if s.len() == 0 {
        assert(s.push(e)[0] == e);
        assert(s.push(e).drop_first() =~= Seq::<(Vec<String>, NodeData)>::empty());
        assert(lookup_in(Seq::<(Vec<String>, NodeData)>::empty(), p) is None);
        assert(lookup_in(s, p) is None);
        if path_of(e.0@) == p {
            assert(lookup_in(s.push(e), p) == Some(node_view(e.1)));
        } else {
            assert(lookup_in(s.push(e), p) == lookup_in(s.push(e).drop_first(), p));
        }
    } else {
        assert(s.push(e)[0] == s[0]);
        assert(s.push(e).drop_first() =~= s.drop_first().push(e));
        lemma_lookup_push(s.drop_first(), e, p);
    }
}

/// The content list is as long as the entry list, pointwise.
pub proof fn lemma_fs_views_len(s: Seq<(Vec<String>, NodeData)>)
    ensures
        fs_views(s).len() == s.len(),
        forall|i: int| 0 <= i < s.len() ==> #[trigger] fs_views(s)[i] == (path_of(s[i].0@),
        node_view(s[i].1)),
{
}

/// Lookup depends only on the entries' content: two lists with equal views
/// resolve every path alike.
pub proof fn lemma_lookup_of_views(
    s1: Seq<(Vec<String>, NodeData)>,
    s2: Seq<(Vec<String>, NodeData)>,
    p: Seq<Seq<char>>,
)
    requires
        fs_views(s1) == fs_views(s2),
    ensures
        lookup_in(s1, p) == lookup_in(s2, p),
    decreases s1.len(),
{
    lemma_fs_views_len(s1);
    lemma_fs_views_len(s2);
    if s1.len() == 0 {
        assert(s2.len() == 0);
    } else {
        assert(fs_views(s1)[0] == fs_views(s2)[0]);
        assert(path_of(s1[0].0@) == path_of(s2[0].0@));
        assert(node_view(s1[0].1) == node_view(s2[0].1));
        lemma_fs_views_len(s1.drop_first());
        lemma_fs_views_len(s2.drop_first());
        assert forall|j: int|
            0 <= j < s1.len() - 1 implies #[trigger] fs_views(s1.drop_first())[j] == fs_views(
            s2.drop_first(),
        )[j] by {
            assert(s1.drop_first()[j] == s1[j + 1]);
            assert(s2.drop_first()[j] == s2[j + 1]);
            assert(fs_views(s1)[j + 1] == fs_views(s2)[j + 1]);
        }
        assert(fs_views(s1.drop_first()) =~= fs_views(s2.drop_first()));
        lemma_lookup_of_views(s1.drop_first(), s2.drop_first(), p);
    }
}

/// Replacing the node at index `i` (keeping its path) moves only that path's
/// lookup, provided entry paths are pairwise distinct.
pub proof fn lemma_lookup_update(
    s: Seq<(Vec<String>, NodeData)>,
    i: int,
    e: (Vec<String>, NodeData),
    p: Seq<Seq<char>>,
)
    requires
        0 <= i < s.len(),
        path_of(e.0@) == path_of(s[i].0@),
        forall|a: int, b: int|
            0 <= a < b < s.len() ==> path_of(#[trigger] s[a].0@) != path_of(#[trigger] s[b].0@),
    ensures
        lookup_in(s.update(i, e), p) == (if p == path_of(s[i].0@) {
            Some(node_view(e.1))
        } else {
            lookup_in(s, p)
        }),
    decreases s.len(),
{
    let s2 = s.update(i, e);
    if i == 0 {
        assert(s2[0] == e);
        assert(s2.drop_first() =~= s.drop_first());
        if p == path_of(s[0].0@) {
        } else {
        }
    } else {
        assert(s2[0] == s[0]);
        assert(s2.drop_first() =~= s.drop_first().update(i - 1, e));
        assert(forall|j: int|
            1 <= j < s.len() ==> #[trigger] s[j] == s.drop_first()[j - 1]);
        lemma_lookup_update(s.drop_first(), i - 1, e, p);
        if p == path_of(s[i].0@) {
            assert(path_of(s[0].0@) != p);
        }
    }
}

// ---------------------------------------------------------------------------
// exec helpers on strings and paths
// ---------------------------------------------------------------------------

/// An independent copy of one text segment.
pub fn clone_string(s: &String) -> (r: String)
    ensures
        r@ == s@,
{
    s.as_str().to_owned()
}

/// Equality of two text segments, decided on their UTF-8 bytes.
pub fn str_eq(a: &str, b: &str) -> (r: bool)
    ensures
        r == (a@ == b@),
{
    let ab = a.as_bytes_vec();
    let bb = b.as_bytes_vec();
    let r = bytes_eq(ab.as_slice(), bb.as_slice());
    proof {
        if ab@ == bb@ {
            assert(decode_utf8(encode_utf8(a@)) == decode_utf8(encode_utf8(b@)));
        }
    }
    r
}

/// Equality of a stored path and a requested path.
pub fn path_eq(a: &Vec<String>, b: &[String]) -> (r: bool)
    ensures
        r == (path_of(a@) == path_of(b@)),
{
    if a.len() != b.len() {
        assert(path_of(a@).len() != path_of(b@).len());
        return false;
    }
    let mut i: usize = 0;
    while i < a.len()
        invariant
            i <= a@.len(),
            a@.len() == b@.len(),
            forall|j: int| 0 <= j < i ==> #[trigger] path_of(a@)[j] == path_of(b@)[j],
        decreases a.len() - i,
    {
        if !str_eq(a[i].as_str(), b[i].as_str()) {
            assert(path_of(a@)[i as int] != path_of(b@)[i as int]);
            return false;
        }
        i = i + 1;
    }
    proof {
        assert(path_of(a@) =~= path_of(b@));
    }
    true
}

/// Whether the requested path `q` is a leading prefix of the stored path `a`.
pub fn path_starts_with(a: &Vec<String>, q: &[String]) -> (r: bool)
    ensures
        r == is_prefix(path_of(q@), path_of(a@)),
{
    if q.len() > a.len() {
        return false;
    }
    let mut i: usize = 0;
    while i < q.len()
        invariant
            i <= q@.len(),
            q@.len() <= a@.len(),
            forall|j: int| 0 <= j < i ==> #[trigger] path_of(a@)[j] == path_of(q@)[j],
        decreases q.len() - i,
    {
        if !str_eq(a[i].as_str(), q[i].as_str()) {
            assert(path_of(a@)[i as int] != path_of(q@)[i as int]);
            assert(!is_prefix(path_of(q@), path_of(a@)));
            return false;
        }
        i = i + 1;
    }
    proof {
        assert(path_of(a@).subrange(0, q@.len() as int) =~= path_of(q@));
    }
    true
}

/// An independent copy of the first `k` segments of a path.
pub fn clone_path_prefix(p: &[String], k: usize) -> (r: Vec<String>)
    requires
        k <= p@.len(),
    ensures
        path_of(r@) == path_of(p@).subrange(0, k as int),
        r@.len() == k,
    decreases k,
{
    let mut out: Vec<String> = Vec::new();
    let mut i: usize = 0;
    while i < k
        invariant
            i <= k,
            k <= p@.len(),
            out@.len() == i,
            forall|j: int| 0 <= j < i ==> #[trigger] out@[j]@ == p@[j]@,
        decreases k - i,
    {
        out.push(clone_string(&p[i]));
        i = i + 1;
    }
    proof {
        assert(path_of(out@) =~= path_of(p@).subrange(0, k as int));
    }
    out
}

/// The path `p` re-rooted: `dst` followed by the segments of `p` after the
/// first `k`.
pub fn rebase_path(dst: &[String], p: &Vec<String>, k: usize) -> (r: Vec<String>)
    requires
        k <= p@.len(),
    ensures
        path_of(r@) == path_of(dst@) + path_of(p@).skip(k as int),
{
    let mut out: Vec<String> = Vec::new();
    let mut i: usize = 0;
    while i < dst.len()
        invariant
            i <= dst@.len(),
            out@.len() == i,
            forall|j: int| 0 <= j < i ==> #[trigger] out@[j]@ == dst@[j]@,
        decreases dst.len() - i,
    {
        out.push(clone_string(&dst[i]));
        i = i + 1;
    }
    let mut t: usize = k;
    while t < p.len()
        invariant
            k <= t <= p@.len(),
            out@.len() == dst@.len() + t - k,
            forall|j: int| 0 <= j < dst@.len() ==> #[trigger] out@[j]@ == dst@[j]@,
            forall|j: int| dst@.len() <= j < out@.len() ==> #[trigger] out@[j]@ == p@[j - dst@.len()
                + k]@,
        decreases p.len() - t,
    {
        out.push(clone_string(&p[t]));
        t = t + 1;
    }
    proof {
        assert(path_of(out@) =~= path_of(dst@) + path_of(p@).skip(k as int));
    }
    out
}

/// An independent copy of a node.
pub fn clone_node(n: &NodeData) -> (r: NodeData)
    ensures
        node_view(r) == node_view(*n),
{
    match n {
        NodeData::File { content, mtime } => NodeData::File {
            content: clone_bytes(content),
            mtime: *mtime,
        },
        NodeData::Dir { mtime } => NodeData::Dir { mtime: *mtime },
    }
}

/// The content of the file a lookup found, if it found a file.
pub open spec fn file_content(o: Option<NodeView>) -> Option<Seq<u8>> {
    match o {
        Some(NodeView::File { content, .. }) => Some(content),
        _ => None,
    }
}

/// Whether `q` is a proper, non-empty leading prefix of `p`.
pub open spec fn proper_prefix(q: Seq<Seq<char>>, p: Seq<Seq<char>>) -> bool {
    1 <= q.len() < p.len() && is_prefix(q, p)
}

/// Whether some proper ancestor of `p` is occupied by a file in `d`.
pub open spec fn ancestor_conflict(d: PrivateDirectory, p: Seq<Seq<char>>) -> bool {
    exists|k: int|
        1 <= k < p.len() && (#[trigger] d.lookup(p.subrange(0, k))) matches Some(
            NodeView::File { .. },
        )
}

/// What a successful `write` leaves behind: the file at `p`, fresh
/// directories at previously absent ancestors, everything else untouched.
pub open spec fn write_post(
    old_d: PrivateDirectory,
    new_d: PrivateDirectory,
    p: Seq<Seq<char>>,
    content: Seq<u8>,
    mtime: i64,
    now: i64,
) -> bool {
    forall|q: Seq<Seq<char>>| #[trigger] new_d.lookup(q) == (if q == p {
        Some(NodeView::File { content, mtime })
    } else if proper_prefix(q, p) && old_d.lookup(q) is None {
        Some(NodeView::Dir { mtime: now })
    } else {
        old_d.lookup(q)
    })
}

/// What a successful `mkdir` leaves behind: directories at `p` and at every
/// previously absent ancestor, everything else untouched.
pub open spec fn mkdir_post(
    old_d: PrivateDirectory,
    new_d: PrivateDirectory,
    p: Seq<Seq<char>>,
    now: i64,
) -> bool {
    forall|q: Seq<Seq<char>>| #[trigger] new_d.lookup(q) == (if (q == p || proper_prefix(q, p))
        && old_d.lookup(q) is None {
        Some(NodeView::Dir { mtime: now })
    } else {
        old_d.lookup(q)
    })
}

/// What a successful `rm` leaves behind: the node at `p` and everything
/// below it gone, everything else untouched.
pub open spec fn rm_post(old_d: PrivateDirectory, new_d: PrivateDirectory, p: Seq<Seq<char>>) -> bool {
    forall|q: Seq<Seq<char>>| #[trigger] new_d.lookup(q) == (if is_prefix(p, q) {
        None::<NodeView>
    } else {
        old_d.lookup(q)
    })
}

/// Prefixes compose: a prefix of a prefix of `c` is a prefix of `c`.
pub proof fn lemma_prefix_trans(a: Seq<Seq<char>>, b: Seq<Seq<char>>, c: Seq<Seq<char>>)
    requires
        is_prefix(a, b),
        is_prefix(b, c),
    ensures
        is_prefix(a, c),
{
    assert(c.subrange(0, a.len() as int) =~= c.subrange(0, b.len() as int).subrange(
        0,
        a.len() as int,
    ));
}

/// Splitting off a prefix and re-concatenating restores the path.
pub proof fn lemma_split_at_prefix(p: Seq<Seq<char>>, q: Seq<Seq<char>>)
    requires
        is_prefix(q, p),
    ensures
        p == q + p.skip(q.len() as int),
{
    assert(p =~= q + p.skip(q.len() as int));
}

/// Concatenation facts: a concatenation starts with its left part and its
/// right part is recovered by skipping.
pub proof fn lemma_concat_parts(a: Seq<Seq<char>>, b: Seq<Seq<char>>)
    ensures
        is_prefix(a, a + b),
        (a + b).skip(a.len() as int) == b,
{
    assert((a + b).subrange(0, a.len() as int) =~= a);
    assert((a + b).skip(a.len() as int) =~= b);
}

/// What a successful `mv` leaves behind: the subtree below `src` re-rooted
/// at `dst`, `src` gone, fresh directories at previously absent ancestors of
/// `dst`, everything else untouched.
pub open spec fn mv_post(
    old_d: PrivateDirectory,
    new_d: PrivateDirectory,
    src: Seq<Seq<char>>,
    dst: Seq<Seq<char>>,
    now: i64,
) -> bool {
    forall|q: Seq<Seq<char>>| #[trigger] new_d.lookup(q) == (if is_prefix(dst, q) {
        old_d.lookup(src + q.skip(dst.len() as int))
    } else if is_prefix(src, q) {
        None::<NodeView>
    } else if proper_prefix(q, dst) && old_d.lookup(q) is None {
        Some(NodeView::Dir { mtime: now })
    } else {
        old_d.lookup(q)
    })
}

/// What a successful `cp` leaves behind: an independent copy of the subtree
/// below `src` rooted at `dst`, fresh directories at previously absent
/// ancestors of `dst`, everything else (the source included) untouched.
pub open spec fn cp_post(
    old_d: PrivateDirectory,
    new_d: PrivateDirectory,
    src: Seq<Seq<char>>,
    dst: Seq<Seq<char>>,
    now: i64,
) -> bool {
    forall|q: Seq<Seq<char>>| #[trigger] new_d.lookup(q) == (if is_prefix(dst, q) {
        old_d.lookup(src + q.skip(dst.len() as int))
    } else if proper_prefix(q, dst) && old_d.lookup(q) is None {
        Some(NodeView::Dir { mtime: now })
    } else {
        old_d.lookup(q)
    })
}

// ---------------------------------------------------------------------------
// the directory itself
// ---------------------------------------------------------------------------

/// The in-memory tree: a list of (path, node) entries with pairwise distinct
/// paths, every path non-empty, and every proper ancestor present as a
/// directory. The root directory is implicit.
pub struct PrivateDirectory {
    entries: Vec<(Vec<String>, NodeData)>,
}

impl PrivateDirectory {
    /// The stored entries.
    pub closed spec fn entries_seq(&self) -> Seq<(Vec<String>, NodeData)> {
        self.entries@
    }

    /// The node stored under `p`, if any.
    pub open spec fn lookup(&self, p: Seq<Seq<char>>) -> Option<NodeView> {
        lookup_in(self.entries_seq(), p)
    }

    /// Entry paths are pairwise distinct.
    pub open spec fn unique_paths(&self) -> bool {
        forall|a: int, b: int|
            0 <= a < b < self.entries_seq().len() ==> path_of(
                #[trigger] self.entries_seq()[a].0@,
            ) != path_of(#[trigger] self.entries_seq()[b].0@)
    }

    /// Every proper, non-empty ancestor of an entry is present as a directory.
    pub open spec fn closed_under_parents(&self) -> bool {
        forall|i: int, k: int|
            0 <= i < self.entries_seq().len() && 1 <= k < self.entries_seq()[i].0@.len()
                ==> (#[trigger] lookup_in(
                self.entries_seq(),
                path_of(self.entries_seq()[i].0@).subrange(0, k),
            )) matches Some(NodeView::Dir { .. })
    }

    /// The structural invariant of the tree.
    pub open spec fn wf(&self) -> bool {
        &&& self.unique_paths()
        &&& (forall|i: int|
            0 <= i < self.entries_seq().len() ==> (#[trigger] self.entries_seq()[i].0@).len() >= 1)
        &&& self.closed_under_parents()
    }

    /// An empty tree: just the implicit root directory.
    pub fn new() -> (r: PrivateDirectory)
        ensures
            r.wf(),
            forall|p: Seq<Seq<char>>| r.lookup(p) is None,
    {
        let r = PrivateDirectory { entries: Vec::new() };
        proof {
            assert(forall|p: Seq<Seq<char>>| lookup_in(r.entries_seq(), p) is None);
        }
        r
    }

    /// The index of the entry carrying `path`, if any.
    fn find_index(&self, path: &[String]) -> (r: Option<usize>)
        requires
            self.unique_paths(),
        ensures
            match r {
                Some(i) => i < self.entries_seq().len() && path_of(self.entries_seq()[i as int].0@)
                    == path_of(path@) && self.lookup(path_of(path@)) == Some(
                    node_view(self.entries_seq()[i as int].1),
                ),
                None => self.lookup(path_of(path@)) is None,
            },
    {
        proof {
            assert(self.entries_seq() == self.entries@);
        }
        let mut i: usize = 0;
        while i < self.entries.len()
            invariant
                self.unique_paths(),
                self.entries_seq() == self.entries@,
                i <= self.entries_seq().len(),
                forall|j: int| 0 <= j < i ==> path_of(
                    #[trigger] self.entries_seq()[j].0@,
                ) != path_of(path@),
            decreases self.entries_seq().len() - i,
        {
            if path_eq(&self.entries[i].0, path) {
                proof {
                    assert(self.entries_seq()[i as int] == self.entries@[i as int]);
                    lemma_lookup_found(self.entries_seq(), i as int, path_of(path@));
                }
                return Some(i);
            }
            proof {
                assert(self.entries_seq()[i as int] == self.entries@[i as int]);
            }
            i = i + 1;
        }
        proof {
            lemma_lookup_absent(self.entries_seq(), path_of(path@));
        }
        None
    }

    /// Reads the file stored under `path`; fails with `NotFound` when the
    /// path is absent or names a directory.
    pub fn read(&self, path: &[String]) -> (r: Result<Vec<u8>, FsError>)
        requires
            self.wf(),
        ensures
            match r {
                Ok(c) => file_content(self.lookup(path_of(path@))) == Some(c@),
                Err(e) => e == FsError::NotFound && file_content(
                    self.lookup(path_of(path@)),
                ) is None,
            },
    {
        match self.find_index(path) {
            Some(i) => match &self.entries[i].1 {
                NodeData::File { content, .. } => Ok(clone_bytes(content)),
                NodeData::Dir { .. } => Err(FsError::NotFound),
            },
            None => Err(FsError::NotFound),
        }
    }

    /// The index of the entry carrying the first `k` segments of `path`.
    fn find_index_prefix(&self, path: &[String], k: usize) -> (r: Option<usize>)
        requires
            self.unique_paths(),
            k <= path@.len(),
        ensures
            match r {
                Some(i) => i < self.entries_seq().len() && path_of(self.entries_seq()[i as int].0@)
                    == path_of(path@).subrange(0, k as int) && self.lookup(
                    path_of(path@).subrange(0, k as int),
                ) == Some(node_view(self.entries_seq()[i as int].1)),
                None => self.lookup(path_of(path@).subrange(0, k as int)) is None,
            },
    {
        let prefix = clone_path_prefix(path, k);
        self.find_index(prefix.as_slice())
    }

    /// Pushes a fresh entry, rebinding exactly its path; the well-formedness
    /// obligations stay with the caller.
    fn push_entry(&mut self, path: Vec<String>, node: NodeData)
        requires
            old(self).lookup(path_of(path@)) is None,
        ensures
            final(self).entries_seq() == old(self).entries_seq().push((path, node)),
            forall|q: Seq<Seq<char>>| #[trigger] final(self).lookup(q) == (if q == path_of(path@) {
                Some(node_view(node))
            } else {
                old(self).lookup(q)
            }),
    {
        let ghost olds = self.entries_seq();
        let ghost e = (path, node);
        self.entries.push((path, node));
        proof {
            assert(self.entries_seq() =~= olds.push(e));
            assert forall|q: Seq<Seq<char>>| #[trigger] lookup_in(self.entries_seq(), q) == (if q
                == path_of(e.0@) {
                Some(node_view(e.1))
            } else {
                lookup_in(olds, q)
            }) by {
                lemma_lookup_push(olds, e, q);
            }
        }
    }

    /// Creates the missing ancestors of `path` up to (not including) the
    /// leaf, each as a directory stamped `now`.
    fn create_ancestors(&mut self, path: &[String], now: i64)
        requires
            old(self).wf(),
            path@.len() >= 1,
            !ancestor_conflict(*old(self), path_of(path@)),
        ensures
            final(self).wf(),
            forall|q: Seq<Seq<char>>| #[trigger] final(self).lookup(q) == (if proper_prefix(
                q,
                path_of(path@),
            ) && old(self).lookup(q) is None {
                Some(NodeView::Dir { mtime: now })
            } else {
                old(self).lookup(q)
            }),
            final(self).lookup(path_of(path@)) == old(self).lookup(path_of(path@)),
    {
        let ghost p = path_of(path@);
        let ghost d0 = *old(self);
        let mut k: usize = 1;
        while k < path.len()
            invariant
                1 <= k <= path@.len(),
                p == path_of(path@),
                self.wf(),
                !ancestor_conflict(d0, p),
                d0.wf(),
                forall|q: Seq<Seq<char>>| #[trigger] self.lookup(q) == (if 1 <= q.len() < k && q
                    == p.subrange(0, q.len() as int) && d0.lookup(q) is None {
                    Some(NodeView::Dir { mtime: now })
                } else {
                    d0.lookup(q)
                }),
            decreases path@.len() - k,
        {
            let ghost pre = *self;
            let ghost qk = p.subrange(0, k as int);
            match self.find_index_prefix(path, k) {
                Some(_) => {},
                None => {
                    let pc = clone_path_prefix(path, k);
                    proof {
                        assert(path_of(pc@) == qk);
                    }
                    self.push_entry(pc, NodeData::Dir { mtime: now });
                    proof {
                        // well-formedness of the grown list
                        let s2 = self.entries_seq();
                        let s1 = pre.entries_seq();
                        assert(s2 == s1.push((s2.last().0, s2.last().1)));
                        assert(path_of(s2.last().0@) == qk);
                        lemma_lookup_absent(s1, qk);
                        assert forall|a: int, b: int|
                            0 <= a < b < s2.len() implies path_of(#[trigger] s2[a].0@) != path_of(
                            #[trigger] s2[b].0@,
                        ) by {
                            if b < s2.len() - 1 {
                                assert(s2[a] == s1[a] && s2[b] == s1[b]);
                            } else {
                                assert(s2[b] == s2.last());
                                assert(s2[a] == s1[a]);
                            }
                        }
                        assert(qk.len() == k);
                        assert forall|i: int, kk: int|
                            0 <= i < s2.len() && 1 <= kk < s2[i].0@.len() implies (
                        #[trigger] lookup_in(s2, path_of(s2[i].0@).subrange(0, kk))) matches Some(
                            NodeView::Dir { .. },
                        ) by {
                            let anc = path_of(s2[i].0@).subrange(0, kk);
                            if i < s2.len() - 1 {
                                assert(s2[i] == s1[i]);
                                assert(lookup_in(s1, anc) matches Some(NodeView::Dir { .. }));
                                assert(self.lookup(anc) == pre.lookup(anc));
                            } else {
                                // ancestors of the new directory are earlier
                                // prefixes of `path`, already directories
                                assert(path_of(s2[i].0@) == qk);
                                assert(anc =~= p.subrange(0, kk));
                                assert(1 <= kk < k);
                                assert(anc == p.subrange(0, anc.len() as int));
                                if d0.lookup(anc) is None {
                                    assert(pre.lookup(anc) == Some(NodeView::Dir { mtime: now }));
                                } else {
                                    assert(pre.lookup(anc) == d0.lookup(anc));
                                    assert(!(d0.lookup(anc) matches Some(NodeView::File { .. })));
                                    assert(pre.lookup(anc) matches Some(NodeView::Dir { .. }));
                                }
                                assert(self.lookup(anc) == pre.lookup(anc));
                            }
                        }
                    }
                },
            }
            proof {
                assert forall|q: Seq<Seq<char>>| #[trigger] self.lookup(q) == (if 1 <= q.len() < k
                    + 1 && q == p.subrange(0, q.len() as int) && d0.lookup(q) is None {
                    Some(NodeView::Dir { mtime: now })
                } else {
                    d0.lookup(q)
                }) by {
                    if q.len() == k && q == p.subrange(0, q.len() as int) {
                        assert(q == qk);
                    }
                }
            }
            k = k + 1;
        }
        proof {
            assert forall|q: Seq<Seq<char>>| #[trigger] self.lookup(q) == (if proper_prefix(q, p)
                && d0.lookup(q) is None {
                Some(NodeView::Dir { mtime: now })
            } else {
                d0.lookup(q)
            }) by {
                if proper_prefix(q, p) {
                    assert(1 <= q.len() < path@.len());
                }
            }
            assert(!proper_prefix(p, p));
        }
    }

    /// Writes `content` at `path`, stamping the file `mtime` and creating
    /// missing ancestor directories stamped `now`; replaces any prior file.
    /// Fails with `InvalidInput` on the empty path, and with `AlreadyExists`
    /// when an ancestor is a file or the path names a directory.
    pub fn write(&mut self, path: &[String], content: Vec<u8>, mtime: i64, now: i64) -> (r: Result<
        (),
        FsError,
    >)
        requires
            old(self).wf(),
        ensures
            final(self).wf(),
            match r {
                Ok(_) => path@.len() >= 1 && !ancestor_conflict(*old(self), path_of(path@)) && !(
                old(self).lookup(path_of(path@)) matches Some(NodeView::Dir { .. })) && write_post(
                    *old(self),
                    *final(self),
                    path_of(path@),
                    content@,
                    mtime,
                    now,
                ),
                Err(e) => *final(self) == *old(self) && ((e == FsError::InvalidInput && path@.len()
                    == 0) || (e == FsError::AlreadyExists && path@.len() >= 1 && (
                ancestor_conflict(*old(self), path_of(path@)) || old(self).lookup(
                    path_of(path@),
                ) matches Some(NodeView::Dir { .. })))),
            },
    {
        let ghost p = path_of(path@);
        let ghost d0 = *old(self);
        if path.len() == 0 {
            return Err(FsError::InvalidInput);
        }
        if self.check_ancestor_conflict(path) {
            return Err(FsError::AlreadyExists);
        }
        match self.find_index(path) {
            Some(i) => {
                match &self.entries[i].1 {
                    NodeData::Dir { .. } => {
                        return Err(FsError::AlreadyExists);
                    },
                    NodeData::File { .. } => {},
                }
            },
            None => {},
        }
        self.create_ancestors(path, now);
        let ghost mid = *self;
        let pc = clone_path_prefix(path, path.len());
        proof {
            assert(path_of(path@).subrange(0, path@.len() as int) =~= path_of(path@));
            assert(path_of(pc@) == p);
        }
        match self.find_index(path) {
            Some(i) => {
                let ghost s1 = self.entries_seq();
                let ghost e = (pc, NodeData::File { content, mtime });
                self.entries.set(i, (pc, NodeData::File { content, mtime }));
                proof {
                    assert(self.entries_seq() == s1.update(i as int, (
                        self.entries_seq()[i as int].0,
                        self.entries_seq()[i as int].1,
                    )));
                    assert forall|q: Seq<Seq<char>>| #[trigger] self.lookup(q) == (if q == p {
                        Some(node_view(self.entries_seq()[i as int].1))
                    } else {
                        mid.lookup(q)
                    }) by {
                        lemma_lookup_update(
                            s1,
                            i as int,
                            (self.entries_seq()[i as int].0, self.entries_seq()[i as int].1),
                            q,
                        );
                    }
                    self.lemma_wf_after_update(mid, i as int, p);
                    assert(write_post(d0, *self, p, content@, mtime, now));
                }
                Ok(())
            },
            None => {
                self.push_entry(pc, NodeData::File { content, mtime });
                proof {
                    self.lemma_wf_after_leaf_push(mid, p, now, d0);
                    assert(write_post(d0, *self, p, content@, mtime, now));
                }
                Ok(())
            },
        }
    }

    /// Whether some proper ancestor of `path` is occupied by a file.
    fn check_ancestor_conflict(&self, path: &[String]) -> (r: bool)
        requires
            self.wf(),
        ensures
            r == ancestor_conflict(*self, path_of(path@)),
    {
        let ghost p = path_of(path@);
        let mut k: usize = 1;
        if path.len() == 0 {
            proof {
                assert(!ancestor_conflict(*self, p));
            }
            return false;
        }
        while k < path.len()
            invariant
                self.wf(),
                1 <= k <= path@.len(),
                p == path_of(path@),
                forall|kk: int| 1 <= kk < k ==> !((#[trigger] self.lookup(
                    p.subrange(0, kk),
                )) matches Some(NodeView::File { .. })),
            decreases path@.len() - k,
        {
            match self.find_index_prefix(path, k) {
                Some(i) => {
                    match &self.entries[i].1 {
                        NodeData::File { .. } => {
                            proof {
                                assert(self.lookup(p.subrange(0, k as int)) matches Some(
                                    NodeView::File { .. },
                                ));
                            }
                            return true;
                        },
                        NodeData::Dir { .. } => {},
                    }
                },
                None => {},
            }
            k = k + 1;
        }
        proof {
            assert(!ancestor_conflict(*self, p));
        }
        false
    }

    /// Replacing the node under an existing file path keeps well-formedness.
    proof fn lemma_wf_after_update(&self, mid: PrivateDirectory, i: int, p: Seq<Seq<char>>)
        requires
            mid.wf(),
            p.len() >= 1,
            0 <= i < mid.entries_seq().len(),
            self.entries_seq().len() == mid.entries_seq().len(),
            path_of(mid.entries_seq()[i].0@) == p,
            !(mid.lookup(p) matches Some(NodeView::Dir { .. })),
            forall|j: int| 0 <= j < self.entries_seq().len() && j != i
                ==> #[trigger] self.entries_seq()[j] == mid.entries_seq()[j],
            path_of(self.entries_seq()[i].0@) == p,
            forall|q: Seq<Seq<char>>| q != p ==> #[trigger] self.lookup(q) == mid.lookup(q),
            self.lookup(p) == Some(node_view(self.entries_seq()[i].1)),
            !(node_view(self.entries_seq()[i].1) matches NodeView::Dir { .. }),
        ensures
            self.wf(),
    {
        assert forall|a: int, b: int|
            0 <= a < b < self.entries_seq().len() implies path_of(
            #[trigger] self.entries_seq()[a].0@,
        ) != path_of(#[trigger] self.entries_seq()[b].0@) by {
            assert(path_of(self.entries_seq()[a].0@) == path_of(mid.entries_seq()[a].0@));
            assert(path_of(self.entries_seq()[b].0@) == path_of(mid.entries_seq()[b].0@));
        }
        assert forall|j: int|
            0 <= j < self.entries_seq().len() implies (#[trigger] self.entries_seq()[j].0@).len()
            >= 1 by {
            if j != i {
                assert(self.entries_seq()[j] == mid.entries_seq()[j]);
            } else {
                assert(path_of(self.entries_seq()[i].0@).len() == p.len());
            }
        }
        assert forall|j: int, kk: int|
            0 <= j < self.entries_seq().len() && 1 <= kk < self.entries_seq()[j].0@.len() implies (
        #[trigger] lookup_in(self.entries_seq(), path_of(self.entries_seq()[j].0@).subrange(
            0,
            kk,
        ))) matches Some(NodeView::Dir { .. }) by {
            let anc = path_of(self.entries_seq()[j].0@).subrange(0, kk);
            assert(path_of(self.entries_seq()[j].0@) == path_of(mid.entries_seq()[j].0@));
            assert(mid.lookup(anc) matches Some(NodeView::Dir { .. }));
            assert(anc != p);
            assert(self.lookup(anc) == mid.lookup(anc));
        }
    }

    /// Appending a fresh leaf whose ancestors are directories keeps
    /// well-formedness.
    proof fn lemma_wf_after_leaf_push(
        &self,
        mid: PrivateDirectory,
        p: Seq<Seq<char>>,
        now: i64,
        d0: PrivateDirectory,
    )
        requires
            mid.wf(),
            p.len() >= 1,
            mid.lookup(p) is None,
            self.entries_seq().len() == mid.entries_seq().len() + 1,
            forall|j: int| 0 <= j < mid.entries_seq().len() ==> #[trigger] self.entries_seq()[j]
                == mid.entries_seq()[j],
            path_of(self.entries_seq().last().0@) == p,
            forall|q: Seq<Seq<char>>| q != p ==> #[trigger] self.lookup(q) == mid.lookup(q),
            forall|kk: int| 1 <= kk < p.len() ==> (#[trigger] mid.lookup(
                p.subrange(0, kk),
            )) matches Some(NodeView::Dir { .. }),
        ensures
            self.wf(),
    {
        let s1 = mid.entries_seq();
        let s2 = self.entries_seq();
        lemma_lookup_absent(s1, p);
        assert forall|j: int| 0 <= j < s2.len() implies (#[trigger] s2[j].0@).len() >= 1 by {
            if j < s2.len() - 1 {
                assert(s2[j] == s1[j]);
            } else {
                assert(path_of(s2[j].0@).len() == p.len());
            }
        }
        assert forall|a: int, b: int|
            0 <= a < b < s2.len() implies path_of(#[trigger] s2[a].0@) != path_of(
            #[trigger] s2[b].0@,
        ) by {
            if b < s2.len() - 1 {
                assert(s2[a] == s1[a] && s2[b] == s1[b]);
            } else {
                assert(s2[b] == s2.last());
                assert(s2[a] == s1[a]);
            }
        }
        assert forall|j: int, kk: int|
            0 <= j < s2.len() && 1 <= kk < s2[j].0@.len() implies (#[trigger] lookup_in(
            s2,
            path_of(s2[j].0@).subrange(0, kk),
        )) matches Some(NodeView::Dir { .. }) by {
            let anc = path_of(s2[j].0@).subrange(0, kk);
            if j < s2.len() - 1 {
                assert(s2[j] == s1[j]);
                assert(mid.lookup(anc) matches Some(NodeView::Dir { .. }));
                assert(anc != p);
                assert(self.lookup(anc) == mid.lookup(anc));
            } else {
                assert(path_of(s2[j].0@) == p);
                assert(anc =~= p.subrange(0, kk));
                assert(mid.lookup(anc) matches Some(NodeView::Dir { .. }));
                assert(anc.len() < p.len());
                assert(anc != p);
                assert(self.lookup(anc) == mid.lookup(anc));
            }
        }
    }

    /// Creates a directory at `path`, with missing ancestors, all stamped
    /// `now`; succeeds without change when the directory already exists.
    /// Fails with `AlreadyExists` only when a file occupies the path or an
    /// ancestor, and with `InvalidInput` on the empty path.
    pub fn mkdir(&mut self, path: &[String], now: i64) -> (r: Result<(), FsError>)
        requires
            old(self).wf(),
        ensures
            final(self).wf(),
            match r {
                Ok(_) => path@.len() >= 1 && !ancestor_conflict(*old(self), path_of(path@)) && !(
                old(self).lookup(path_of(path@)) matches Some(NodeView::File { .. }))
                    && mkdir_post(*old(self), *final(self), path_of(path@), now),
                Err(e) => *final(self) == *old(self) && ((e == FsError::InvalidInput && path@.len()
                    == 0) || (e == FsError::AlreadyExists && path@.len() >= 1 && (
                ancestor_conflict(*old(self), path_of(path@)) || old(self).lookup(
                    path_of(path@),
                ) matches Some(NodeView::File { .. })))),
            },
    {
        let ghost p = path_of(path@);
        let ghost d0 = *old(self);
        if path.len() == 0 {
            return Err(FsError::InvalidInput);
        }
        if self.check_ancestor_conflict(path) {
            return Err(FsError::AlreadyExists);
        }
        match self.find_index(path) {
            Some(i) => {
                match &self.entries[i].1 {
                    NodeData::File { .. } => {
                        return Err(FsError::AlreadyExists);
                    },
                    NodeData::Dir { .. } => {
                        proof {
                            assert(mkdir_post(d0, *self, p, now));
                        }
                        return Ok(());
                    },
                }
            },
            None => {},
        }
        self.create_ancestors(path, now);
        let ghost mid = *self;
        let pc = clone_path_prefix(path, path.len());
        proof {
            assert(path_of(path@).subrange(0, path@.len() as int) =~= path_of(path@));
            assert(path_of(pc@) == p);
        }
        self.push_entry(pc, NodeData::Dir { mtime: now });
        proof {
            self.lemma_wf_after_leaf_push(mid, p, now, d0);
            assert(mkdir_post(d0, *self, p, now));
        }
        Ok(())
    }

    /// Whether the requested path `q` is a leading prefix of path `a`.
    fn slice_starts_with(a: &[String], q: &[String]) -> (r: bool)
        ensures
            r == is_prefix(path_of(q@), path_of(a@)),
    {
        if q.len() > a.len() {
            return false;
        }
        let mut i: usize = 0;
        while i < q.len()
            invariant
                i <= q@.len(),
                q@.len() <= a@.len(),
                forall|j: int| 0 <= j < i ==> #[trigger] path_of(a@)[j] == path_of(q@)[j],
            decreases q.len() - i,
        {
            if !str_eq(a[i].as_str(), q[i].as_str()) {
                assert(path_of(a@)[i as int] != path_of(q@)[i as int]);
                assert(!is_prefix(path_of(q@), path_of(a@)));
                return false;
            }
            i = i + 1;
        }
        proof {
            assert(path_of(a@).subrange(0, q@.len() as int) =~= path_of(q@));
        }
        true
    }

    /// Removes the node at `path` together with everything below it; the
    /// orphaned ciphertexts stay in the forest, only the tree forgets them.
    /// Fails with `NotFound` when the path is absent.
    pub fn rm(&mut self, path: &[String]) -> (r: Result<(), FsError>)
        requires
            old(self).wf(),
        ensures
            final(self).wf(),
            match r {
                Ok(_) => path@.len() >= 1 && old(self).lookup(path_of(path@)) is Some && rm_post(
                    *old(self),
                    *final(self),
                    path_of(path@),
                ),
                Err(e) => *final(self) == *old(self) && ((e == FsError::InvalidInput && path@.len()
                    == 0) || (e == FsError::NotFound && path@.len() >= 1 && old(self).lookup(
                    path_of(path@),
                ) is None)),
            },
    {
        let ghost p = path_of(path@);
        let ghost d0 = *old(self);
        if path.len() == 0 {
            return Err(FsError::InvalidInput);
        }
        match self.find_index(path) {
            None => {
                return Err(FsError::NotFound);
            },
            Some(_) => {},
        }
        let ghost full = self.entries_seq();
        let mut kept: Vec<(Vec<String>, NodeData)> = Vec::new();
        let mut i: usize = 0;
        proof {
            assert(full.subrange(0, 0) =~= Seq::<(Vec<String>, NodeData)>::empty());
        }
        while i < self.entries.len()
            invariant
                *self == d0,
                self.wf(),
                full == self.entries_seq(),
                i <= full.len(),
                p == path_of(path@),
                p.len() >= 1,
                forall|q: Seq<Seq<char>>| #[trigger] lookup_in(kept@, q) == (if is_prefix(p, q) {
                    None::<NodeView>
                } else {
                    lookup_in(full.subrange(0, i as int), q)
                }),
                forall|a: int, b: int|
                    0 <= a < b < kept@.len() ==> path_of(#[trigger] kept@[a].0@) != path_of(
                        #[trigger] kept@[b].0@,
                    ),
                forall|j: int| 0 <= j < kept@.len() ==> (#[trigger] kept@[j].0@).len() >= 1
                    && !is_prefix(p, path_of(kept@[j].0@)),
            decreases full.len() - i,
        {
            let ghost kept0 = kept@;
            let ghost cur = full[i as int];
            let ghost curp = path_of(cur.0@);
            let keep = !path_starts_with(&self.entries[i].0, path);
            if keep {
                let plen = self.entries[i].0.len();
                let pc = clone_path_prefix(self.entries[i].0.as_slice(), plen);
                let nd = clone_node(&self.entries[i].1);
                proof {
                    assert(path_of(pc@) =~= curp);
                    assert(node_view(nd) == node_view(cur.1));
                    // the kept list has no entry under this path yet
                    lemma_lookup_absent(full.subrange(0, i as int), curp);
                    assert(forall|j: int| 0 <= j < i ==> full.subrange(0, i as int)[j]
                        == #[trigger] full[j]);
                    assert(lookup_in(full.subrange(0, i as int), curp) is None);
                    assert(lookup_in(kept0, curp) is None);
                    lemma_lookup_absent(kept0, curp);
                }
                kept.push((pc, nd));
                proof {
                    assert(kept@.drop_last() =~= kept0);
                    assert(kept@.last() == (pc, nd));
                    assert forall|q: Seq<Seq<char>>| #[trigger] lookup_in(kept@, q) == (if q
                        == curp {
                        Some(node_view(cur.1))
                    } else {
                        lookup_in(kept0, q)
                    }) by {
                        lemma_lookup_push(kept0, (pc, nd), q);
                    }
                }
            }
            proof {
                assert(full.subrange(0, i as int + 1) =~= full.subrange(0, i as int).push(cur));
                assert forall|q: Seq<Seq<char>>| #[trigger] lookup_in(
                    full.subrange(0, i as int + 1),
                    q,
                ) == (if lookup_in(full.subrange(0, i as int), q) is Some {
                    lookup_in(full.subrange(0, i as int), q)
                } else if curp == q {
                    Some(node_view(cur.1))
                } else {
                    None
                }) by {
                    lemma_lookup_push(full.subrange(0, i as int), cur, q);
                }
                if keep {
                } else {
                    assert(is_prefix(p, curp));
                    assert forall|q: Seq<Seq<char>>| #[trigger] lookup_in(kept@, q) == (if
                        is_prefix(p, q) {
                        None::<NodeView>
                    } else {
                        lookup_in(full.subrange(0, i as int + 1), q)
                    }) by {
                        if !is_prefix(p, q) && q == curp {
                            assert(false);
                        }
                        if !is_prefix(p, q) {
                            lemma_lookup_absent(full.subrange(0, i as int), curp);
                        }
                    }
                }
            }
            i = i + 1;
        }
        proof {
            assert(full.subrange(0, full.len() as int) =~= full);
        }
        let ghost kept_view = kept@;
        self.entries = kept;
        proof {
            assert(self.entries_seq() == kept_view);
            assert forall|a: int, b: int|
                0 <= a < b < self.entries_seq().len() implies path_of(
                #[trigger] self.entries_seq()[a].0@,
            ) != path_of(#[trigger] self.entries_seq()[b].0@) by {
                assert(self.entries_seq()[a] == kept_view[a]);
                assert(self.entries_seq()[b] == kept_view[b]);
            }
            // the filtered list is well formed: closure survives because an
            // ancestor of a kept path is never under the removed path
            assert forall|j: int, kk: int|
                0 <= j < self.entries_seq().len() && 1 <= kk < self.entries_seq()[j].0@.len()
                implies (#[trigger] lookup_in(
                self.entries_seq(),
                path_of(self.entries_seq()[j].0@).subrange(0, kk),
            )) matches Some(NodeView::Dir { .. }) by {
                let pj = path_of(self.entries_seq()[j].0@);
                let anc = pj.subrange(0, kk);
                assert(is_prefix(anc, pj));
                if is_prefix(p, anc) {
                    lemma_prefix_trans(p, anc, pj);
                    assert(false);
                }
                assert(lookup_in(self.entries_seq(), anc) == lookup_in(full, anc));
                // the kept entry was present in the old tree under pj
                lemma_lookup_found(self.entries_seq(), j, pj);
                assert(lookup_in(self.entries_seq(), pj) is Some);
                assert(lookup_in(full, pj) is Some);
                lemma_lookup_absent(full, pj);
                let w = choose|w: int| 0 <= w < full.len() && path_of(full[w].0@) == pj;
                assert(d0.closed_under_parents());
                assert(lookup_in(full, path_of(full[w].0@).subrange(0, kk)) matches Some(
                    NodeView::Dir { .. },
                ));
                assert(path_of(full[w].0@).subrange(0, kk) =~= anc);
            }
            assert(rm_post(d0, *self, p));
        }
        Ok(())
    }

    /// Lists the immediate children of the directory at `path` (the root
    /// when `path` is empty): each child's name and metadata, names distinct
    /// and complete. Fails with `NotFound` when `path` is not a directory.
    #[verifier::rlimit(100)]
    pub fn ls(&self, path: &[String]) -> (r: Result<Vec<(String, Metadata)>, FsError>)
        requires
            self.wf(),
        ensures
            match r {
                Ok(v) => (path@.len() == 0 || self.lookup(path_of(path@)) matches Some(
                    NodeView::Dir { .. },
                )) && (forall|k: int|
                    0 <= k < v@.len() ==> {
                        let o = self.lookup(path_of(path@).push(#[trigger] v@[k].0@));
                        o is Some && meta_matches(v@[k].1, o->Some_0)
                    }) && (forall|name: Seq<char>|
                    self.lookup(path_of(path@).push(name)) is Some ==> exists|k: int|
                        0 <= k < v@.len() && (#[trigger] v@[k].0@) == name) && (forall|
                    k1: int,
                    k2: int,
                |
                    0 <= k1 < k2 < v@.len() ==> (#[trigger] v@[k1].0@) != (#[trigger] v@[k2].0@)),
                Err(e) => e == FsError::NotFound && path@.len() >= 1 && !(self.lookup(
                    path_of(path@),
                ) matches Some(NodeView::Dir { .. })),
            },
    {
        let ghost p = path_of(path@);
        if path.len() > 0 {
            match self.find_index(path) {
                None => {
                    return Err(FsError::NotFound);
                },
                Some(i) => {
                    match &self.entries[i].1 {
                        NodeData::File { .. } => {
                            return Err(FsError::NotFound);
                        },
                        NodeData::Dir { .. } => {},
                    }
                },
            }
        }
        let mut v: Vec<(String, Metadata)> = Vec::new();
        let mut i: usize = 0;
        while i < self.entries.len()
            invariant
                self.wf(),
                i <= self.entries_seq().len(),
                p == path_of(path@),
                forall|k: int|
                    0 <= k < v@.len() ==> {
                        let o = self.lookup(p.push(#[trigger] v@[k].0@));
                        o is Some && meta_matches(v@[k].1, o->Some_0)
                    },
                forall|k: int|
                    0 <= k < v@.len() ==> exists|j: int|
                        0 <= j < i && path_of(#[trigger] self.entries_seq()[j].0@) == p.push(
                            #[trigger] v@[k].0@,
                        ),
                forall|j: int|
                    0 <= j < i && path_of(#[trigger] self.entries_seq()[j].0@).len() == p.len() + 1
                        && is_prefix(p, path_of(self.entries_seq()[j].0@)) ==> exists|k: int|
                        0 <= k < v@.len() && p.push(#[trigger] v@[k].0@) == path_of(
                            self.entries_seq()[j].0@,
                        ),
                forall|k1: int, k2: int|
                    0 <= k1 < k2 < v@.len() ==> (#[trigger] v@[k1].0@) != (#[trigger] v@[k2].0@),
            decreases self.entries_seq().len() - i,
        {
            let ghost v0 = v@;
            let el = self.entries[i].0.len();
            let is_child = el > path.len() && el - 1 == path.len() && path_starts_with(
                &self.entries[i].0,
                path,
            );
            if is_child {
                let ghost pj = path_of(self.entries_seq()[i as int].0@);
                proof {
                    assert(pj =~= p.push(pj.last()));
                }
                let name = clone_string(&self.entries[i].0[path.len()]);
                proof {
                    assert(name@ == pj.last());
                    lemma_lookup_found(self.entries_seq(), i as int, pj);
                    // a child with this name cannot already be listed
                    if exists|k: int| 0 <= k < v0.len() && (#[trigger] v0[k].0@) == name@ {
                        let k = choose|k: int| 0 <= k < v0.len() && (#[trigger] v0[k].0@)
                            == name@;
                        let j = choose|j: int|
                            0 <= j < i && path_of(#[trigger] self.entries_seq()[j].0@) == p.push(
                                v0[k].0@,
                            );
                        assert(path_of(self.entries_seq()[j].0@) == pj);
                        assert(false);
                    }
                }
                let meta = match &self.entries[i].1 {
                    NodeData::File { mtime, .. } => Metadata { is_dir: false, mtime: *mtime },
                    NodeData::Dir { mtime } => Metadata { is_dir: true, mtime: *mtime },
                };
                v.push((name, meta));
                proof {
                    assert(v@.drop_last() =~= v0);
                    assert(v@.last().0@ == pj.last());
                    assert(self.lookup(pj) == Some(node_view(self.entries_seq()[i as int].1)));
                    assert(meta_matches(v@.last().1, node_view(self.entries_seq()[i as int].1)));
                    assert(forall|k: int| 0 <= k < v0.len() ==> v@[k] == v0[k]);
                }
            } else {
                proof {
                    let pj = path_of(self.entries_seq()[i as int].0@);
                    if pj.len() == p.len() + 1 && is_prefix(p, pj) {
                        assert(false);
                    }
                }
            }
            i = i + 1;
        }
        proof {
            // completeness: every present child path has an entry, hence a row
            assert forall|name: Seq<char>| self.lookup(p.push(name)) is Some implies exists|k: int|
                0 <= k < v@.len() && (#[trigger] v@[k].0@) == name by {
                lemma_lookup_absent(self.entries_seq(), p.push(name));
                let j = choose|j: int|
                    0 <= j < self.entries_seq().len() && path_of(
                        #[trigger] self.entries_seq()[j].0@,
                    ) == p.push(name);
                assert(path_of(self.entries_seq()[j].0@).len() == p.len() + 1);
                assert(p.push(name).subrange(0, p.len() as int) =~= p);
                assert(is_prefix(p, path_of(self.entries_seq()[j].0@)));
                let k = choose|k: int|
                    0 <= k < v@.len() && p.push(#[trigger] v@[k].0@) == path_of(
                        self.entries_seq()[j].0@,
                    );
                assert(p.push(v@[k].0@) == p.push(name));
                assert(p.push(v@[k].0@).last() == v@[k].0@);
                assert(v@[k].0@ == name);
            }
        }
        Ok(v)
    }

    /// Nothing lies at or under `dp` when `dp` itself is absent: an entry
    /// below it would need `dp` as a directory ancestor.
    proof fn lemma_subtree_empty(&self, dp: Seq<Seq<char>>)
        requires
            self.wf(),
            dp.len() >= 1,
            self.lookup(dp) is None,
        ensures
            forall|q: Seq<Seq<char>>| is_prefix(dp, q) ==> #[trigger] self.lookup(q) is None,
    {
        let full = self.entries_seq();
        assert forall|q: Seq<Seq<char>>| is_prefix(dp, q) implies #[trigger] self.lookup(
            q,
        ) is None by {
            if self.lookup(q) is Some {
                lemma_lookup_absent(full, q);
                let w = choose|w: int| 0 <= w < full.len() && path_of(#[trigger] full[w].0@) == q;
                if q.len() == dp.len() {
                    assert(q =~= dp);
                } else {
                    assert(1 <= dp.len() < q.len());
                    assert(lookup_in(full, path_of(full[w].0@).subrange(0, dp.len() as int))
                        matches Some(NodeView::Dir { .. }));
                    assert(path_of(full[w].0@).subrange(0, dp.len() as int) =~= dp);
                }
            }
        }
    }

    /// Moves the subtree at `src` to `dst`, re-parenting the same nodes, and
    /// creates missing ancestors of `dst` stamped `now`. Fails with
    /// `InvalidInput` when either path is empty or `dst` lies at or under
    /// `src`, with `NotFound` when `src` is absent, and with `AlreadyExists`
    /// when `dst` is present or one of its ancestors is a file.
    #[verifier::rlimit(100)]
    pub fn mv(&mut self, src: &[String], dst: &[String], now: i64) -> (r: Result<(), FsError>)
        requires
            old(self).wf(),
        ensures
            final(self).wf(),
            match r {
                Ok(_) => path_of(src@).len() >= 1 && path_of(dst@).len() >= 1 && !is_prefix(
                    path_of(src@),
                    path_of(dst@),
                ) && old(self).lookup(path_of(src@)) is Some && old(self).lookup(
                    path_of(dst@),
                ) is None && !ancestor_conflict(*old(self), path_of(dst@)) && mv_post(
                    *old(self),
                    *final(self),
                    path_of(src@),
                    path_of(dst@),
                    now,
                ),
                Err(e) => *final(self) == *old(self) && ((e == FsError::InvalidInput && (path_of(
                    src@,
                ).len() == 0 || path_of(dst@).len() == 0 || is_prefix(path_of(src@), path_of(dst@))))
                    || (e == FsError::NotFound && path_of(src@).len() >= 1 && path_of(dst@).len()
                    >= 1 && !is_prefix(path_of(src@), path_of(dst@)) && old(self).lookup(
                    path_of(src@),
                ) is None) || (e == FsError::AlreadyExists && path_of(src@).len() >= 1 && path_of(
                    dst@,
                ).len() >= 1 && !is_prefix(path_of(src@), path_of(dst@)) && old(self).lookup(
                    path_of(src@),
                ) is Some && (old(self).lookup(path_of(dst@)) is Some || ancestor_conflict(
                    *old(self),
                    path_of(dst@),
                )))),
            },
    {
        let ghost sp = path_of(src@);
        let ghost dp = path_of(dst@);
        let ghost d0 = *old(self);
        if src.len() == 0 || dst.len() == 0 {
            return Err(FsError::InvalidInput);
        }
        if Self::slice_starts_with(dst, src) {
            return Err(FsError::InvalidInput);
        }
        match self.find_index(src) {
            None => {
                return Err(FsError::NotFound);
            },
            Some(_) => {},
        }
        match self.find_index(dst) {
            Some(_) => {
                return Err(FsError::AlreadyExists);
            },
            None => {},
        }
        if self.check_ancestor_conflict(dst) {
            return Err(FsError::AlreadyExists);
        }
        self.create_ancestors(dst, now);
        let ghost mid = *self;
        let ghost full = self.entries_seq();
        proof {
            assert(!proper_prefix(dp, dp));
            assert(mid.lookup(dp) == d0.lookup(dp));
            assert(!proper_prefix(sp, dp) ==> mid.lookup(sp) == d0.lookup(sp));
            assert(mid.lookup(sp) is Some);
            assert forall|q: Seq<Seq<char>>| #[trigger] mid.lookup(q) == (if proper_prefix(q, dp)
                && d0.lookup(q) is None {
                Some(NodeView::Dir { mtime: now })
            } else {
                d0.lookup(q)
            }) by {}
            mid.lemma_subtree_empty(dp);
            assert(full == mid.entries_seq());
            assert forall|q: Seq<Seq<char>>| is_prefix(dp, q) implies #[trigger] lookup_in(
                full,
                q,
            ) is None by {
                assert(mid.lookup(q) is None);
            }
            assert forall|kk: int| 1 <= kk < dp.len() implies (#[trigger] lookup_in(
                full,
                dp.subrange(0, kk),
            )) matches Some(NodeView::Dir { .. }) by {
                let q = dp.subrange(0, kk);
                assert(q =~= dp.subrange(0, q.len() as int));
                assert(proper_prefix(q, dp));
                if d0.lookup(q) is None {
                    assert(mid.lookup(q) == Some(NodeView::Dir { mtime: now }));
                } else {
                    assert(mid.lookup(q) == d0.lookup(q));
                    assert(!(d0.lookup(q) matches Some(NodeView::File { .. })));
                    assert(mid.lookup(q) matches Some(NodeView::Dir { .. }));
                }
                assert(lookup_in(full, q) == mid.lookup(q));
            }
            assert(full.subrange(0, 0) =~= Seq::<(Vec<String>, NodeData)>::empty());
        }
        let mut kept: Vec<(Vec<String>, NodeData)> = Vec::new();
        let mut i: usize = 0;
        while i < self.entries.len()
            invariant
                *self == mid,
                self.wf(),
                full == self.entries_seq(),
                i <= full.len(),
                sp == path_of(src@),
                dp == path_of(dst@),
                sp.len() >= 1,
                dp.len() >= 1,
                !is_prefix(sp, dp),
                lookup_in(full, sp) is Some,
                forall|q: Seq<Seq<char>>| is_prefix(dp, q) ==> #[trigger] lookup_in(
                    full,
                    q,
                ) is None,
                forall|q: Seq<Seq<char>>| #[trigger] lookup_in(kept@, q) == (if is_prefix(dp, q) {
                    lookup_in(full.subrange(0, i as int), sp + q.skip(dp.len() as int))
                } else if is_prefix(sp, q) {
                    None::<NodeView>
                } else {
                    lookup_in(full.subrange(0, i as int), q)
                }),
                forall|a: int, b: int|
                    0 <= a < b < kept@.len() ==> path_of(#[trigger] kept@[a].0@) != path_of(
                        #[trigger] kept@[b].0@,
                    ),
                forall|j: int| 0 <= j < kept@.len() ==> (#[trigger] kept@[j].0@).len() >= 1,
            decreases full.len() - i,
        {
            let ghost kept0 = kept@;
            let ghost cur = full[i as int];
            let ghost curp = path_of(cur.0@);
            let ghost subi = full.subrange(0, i as int);
            let ghost subi1 = full.subrange(0, i as int + 1);
            proof {
                assert(subi1 =~= subi.push(cur));
                assert forall|q: Seq<Seq<char>>| #[trigger] lookup_in(subi1, q) == (if lookup_in(
                    subi,
                    q,
                ) is Some {
                    lookup_in(subi, q)
                } else if curp == q {
                    Some(node_view(cur.1))
                } else {
                    None
                }) by {
                    lemma_lookup_push(subi, cur, q);
                }
                lemma_lookup_found(full, i as int, curp);
                assert(forall|j: int| 0 <= j < i ==> subi[j] == #[trigger] full[j]);
                lemma_lookup_absent(subi, curp);
                assert(lookup_in(subi, curp) is None);
                assert(!is_prefix(dp, curp));
            }
            let moved = path_starts_with(&self.entries[i].0, src);
            if moved {
                let np = rebase_path(dst, &self.entries[i].0, src.len());
                let nd = clone_node(&self.entries[i].1);
                let ghost npp = path_of(np@);
                proof {
                    assert(npp == dp + curp.skip(sp.len() as int));
                    lemma_concat_parts(dp, curp.skip(sp.len() as int));
                    assert(is_prefix(dp, npp));
                    assert(npp.skip(dp.len() as int) == curp.skip(sp.len() as int));
                    lemma_split_at_prefix(curp, sp);
                    assert(sp + npp.skip(dp.len() as int) == curp);
                    assert(lookup_in(kept0, npp) == lookup_in(subi, curp));
                    lemma_lookup_absent(kept0, npp);
                }
                kept.push((np, nd));
                proof {
                    assert(kept@.drop_last() =~= kept0);
                    assert(node_view(kept@.last().1) == node_view(cur.1));
                    assert(path_of(kept@.last().0@) == npp);
                    assert forall|q: Seq<Seq<char>>| #[trigger] lookup_in(kept@, q) == (if q == npp {
                        Some(node_view(cur.1))
                    } else {
                        lookup_in(kept0, q)
                    }) by {
                        lemma_lookup_push(kept0, (np, nd), q);
                    }
                    assert forall|q: Seq<Seq<char>>| #[trigger] lookup_in(kept@, q) == (if
                        is_prefix(dp, q) {
                        lookup_in(subi1, sp + q.skip(dp.len() as int))
                    } else if is_prefix(sp, q) {
                        None::<NodeView>
                    } else {
                        lookup_in(subi1, q)
                    }) by {
                        if is_prefix(dp, q) {
                            lemma_split_at_prefix(q, dp);
                            if q == npp {
                                assert(sp + q.skip(dp.len() as int) == curp);
                            } else {
                                if sp + q.skip(dp.len() as int) == curp {
                                    lemma_concat_parts(sp, q.skip(dp.len() as int));
                                    assert(q.skip(dp.len() as int) == curp.skip(sp.len() as int));
                                    assert(q == dp + q.skip(dp.len() as int));
                                    assert(false);
                                }
                            }
                        } else if is_prefix(sp, q) {
                            assert(q != npp);
                        } else {
                            assert(q != npp);
                            assert(q != curp);
                        }
                    }
                }
            } else {
                let plen = self.entries[i].0.len();
                let pc = clone_path_prefix(self.entries[i].0.as_slice(), plen);
                let nd = clone_node(&self.entries[i].1);
                proof {
                    assert(path_of(pc@) =~= curp);
                    assert(!is_prefix(sp, curp));
                    assert(lookup_in(kept0, curp) == lookup_in(subi, curp));
                    lemma_lookup_absent(kept0, curp);
                }
                kept.push((pc, nd));
                proof {
                    assert(kept@.drop_last() =~= kept0);
                    assert(node_view(kept@.last().1) == node_view(cur.1));
                    assert(path_of(kept@.last().0@) == curp);
                    assert forall|q: Seq<Seq<char>>| #[trigger] lookup_in(kept@, q) == (if q == curp {
                        Some(node_view(cur.1))
                    } else {
                        lookup_in(kept0, q)
                    }) by {
                        lemma_lookup_push(kept0, (pc, nd), q);
                    }
                    assert forall|q: Seq<Seq<char>>| #[trigger] lookup_in(kept@, q) == (if
                        is_prefix(dp, q) {
                        lookup_in(subi1, sp + q.skip(dp.len() as int))
                    } else if is_prefix(sp, q) {
                        None::<NodeView>
                    } else {
                        lookup_in(subi1, q)
                    }) by {
                        if is_prefix(dp, q) {
                            assert(q != curp);
                            if sp + q.skip(dp.len() as int) == curp {
                                lemma_concat_parts(sp, q.skip(dp.len() as int));
                                assert(is_prefix(sp, curp));
                                assert(false);
                            }
                        } else if is_prefix(sp, q) {
                            assert(q != curp);
                        }
                    }
                }
            }
            i = i + 1;
        }
        proof {
            assert(full.subrange(0, full.len() as int) =~= full);
        }
        let ghost kept_view = kept@;
        self.entries = kept;
        proof {
            assert(self.entries_seq() == kept_view);
            assert forall|a: int, b: int|
                0 <= a < b < self.entries_seq().len() implies path_of(
                #[trigger] self.entries_seq()[a].0@,
            ) != path_of(#[trigger] self.entries_seq()[b].0@) by {
                assert(self.entries_seq()[a] == kept_view[a]);
                assert(self.entries_seq()[b] == kept_view[b]);
            }
            assert forall|j: int|
                0 <= j < self.entries_seq().len() implies (#[trigger] self.entries_seq()[j].0@).len()
                >= 1 by {
                assert(self.entries_seq()[j] == kept_view[j]);
            }
            self.lemma_mv_closure(mid, full, sp, dp);
            assert forall|q: Seq<Seq<char>>| #[trigger] self.lookup(q) == (if is_prefix(dp, q) {
                d0.lookup(sp + q.skip(dp.len() as int))
            } else if is_prefix(sp, q) {
                None::<NodeView>
            } else if proper_prefix(q, dp) && d0.lookup(q) is None {
                Some(NodeView::Dir { mtime: now })
            } else {
                d0.lookup(q)
            }) by {
                if is_prefix(dp, q) {
                    let c = sp + q.skip(dp.len() as int);
                    lemma_concat_parts(sp, q.skip(dp.len() as int));
                    if proper_prefix(c, dp) {
                        lemma_prefix_trans(sp, c, dp);
                        assert(false);
                    }
                    assert(self.lookup(q) == lookup_in(full, c));
                    assert(lookup_in(full, c) == mid.lookup(c));
                    assert(mid.lookup(c) == d0.lookup(c));
                } else if is_prefix(sp, q) {
                } else {
                    assert(self.lookup(q) == lookup_in(full, q));
                    assert(lookup_in(full, q) == mid.lookup(q));
                }
            }
            assert(mv_post(d0, *self, sp, dp, now));
        }
        Ok(())
    }

    /// Copies the subtree at `src` to an independent clone at `dst`, leaving
    /// the source untouched, and creates missing ancestors of `dst` stamped
    /// `now`. Fails exactly as `mv` does.
    #[verifier::rlimit(100)]
    pub fn cp(&mut self, src: &[String], dst: &[String], now: i64) -> (r: Result<(), FsError>)
        requires
            old(self).wf(),
        ensures
            final(self).wf(),
            match r {
                Ok(_) => path_of(src@).len() >= 1 && path_of(dst@).len() >= 1 && !is_prefix(
                    path_of(src@),
                    path_of(dst@),
                ) && old(self).lookup(path_of(src@)) is Some && old(self).lookup(
                    path_of(dst@),
                ) is None && !ancestor_conflict(*old(self), path_of(dst@)) && cp_post(
                    *old(self),
                    *final(self),
                    path_of(src@),
                    path_of(dst@),
                    now,
                ),
                Err(e) => *final(self) == *old(self) && ((e == FsError::InvalidInput && (path_of(
                    src@,
                ).len() == 0 || path_of(dst@).len() == 0 || is_prefix(path_of(src@), path_of(dst@))))
                    || (e == FsError::NotFound && path_of(src@).len() >= 1 && path_of(dst@).len()
                    >= 1 && !is_prefix(path_of(src@), path_of(dst@)) && old(self).lookup(
                    path_of(src@),
                ) is None) || (e == FsError::AlreadyExists && path_of(src@).len() >= 1 && path_of(
                    dst@,
                ).len() >= 1 && !is_prefix(path_of(src@), path_of(dst@)) && old(self).lookup(
                    path_of(src@),
                ) is Some && (old(self).lookup(path_of(dst@)) is Some || ancestor_conflict(
                    *old(self),
                    path_of(dst@),
                )))),
            },
    {
        let ghost sp = path_of(src@);
        let ghost dp = path_of(dst@);
        let ghost d0 = *old(self);
        if src.len() == 0 || dst.len() == 0 {
            return Err(FsError::InvalidInput);
        }
        if Self::slice_starts_with(dst, src) {
            return Err(FsError::InvalidInput);
        }
        match self.find_index(src) {
            None => {
                return Err(FsError::NotFound);
            },
            Some(_) => {},
        }
        match self.find_index(dst) {
            Some(_) => {
                return Err(FsError::AlreadyExists);
            },
            None => {},
        }
        if self.check_ancestor_conflict(dst) {
            return Err(FsError::AlreadyExists);
        }
        self.create_ancestors(dst, now);
        let ghost mid = *self;
        let ghost full = self.entries_seq();
        proof {
            assert(!proper_prefix(dp, dp));
            assert(mid.lookup(dp) == d0.lookup(dp));
            assert(!proper_prefix(sp, dp) ==> mid.lookup(sp) == d0.lookup(sp));
            assert(mid.lookup(sp) is Some);
            assert forall|q: Seq<Seq<char>>| #[trigger] mid.lookup(q) == (if proper_prefix(q, dp)
                && d0.lookup(q) is None {
                Some(NodeView::Dir { mtime: now })
            } else {
                d0.lookup(q)
            }) by {}
            mid.lemma_subtree_empty(dp);
            assert(full == mid.entries_seq());
            assert forall|q: Seq<Seq<char>>| is_prefix(dp, q) implies #[trigger] lookup_in(
                full,
                q,
            ) is None by {
                assert(mid.lookup(q) is None);
            }
            assert forall|kk: int| 1 <= kk < dp.len() implies (#[trigger] lookup_in(
                full,
                dp.subrange(0, kk),
            )) matches Some(NodeView::Dir { .. }) by {
                let q = dp.subrange(0, kk);
                assert(q =~= dp.subrange(0, q.len() as int));
                assert(proper_prefix(q, dp));
                if d0.lookup(q) is None {
                    assert(mid.lookup(q) == Some(NodeView::Dir { mtime: now }));
                } else {
                    assert(mid.lookup(q) == d0.lookup(q));
                    assert(!(d0.lookup(q) matches Some(NodeView::File { .. })));
                    assert(mid.lookup(q) matches Some(NodeView::Dir { .. }));
                }
                assert(lookup_in(full, q) == mid.lookup(q));
            }
            assert(full.subrange(0, 0) =~= Seq::<(Vec<String>, NodeData)>::empty());
        }
        let mut kept: Vec<(Vec<String>, NodeData)> = Vec::new();
        let mut i: usize = 0;
        while i < self.entries.len()
            invariant
                *self == mid,
                self.wf(),
                full == self.entries_seq(),
                i <= full.len(),
                sp == path_of(src@),
                dp == path_of(dst@),
                sp.len() >= 1,
                dp.len() >= 1,
                !is_prefix(sp, dp),
                forall|q: Seq<Seq<char>>| is_prefix(dp, q) ==> #[trigger] lookup_in(
                    full,
                    q,
                ) is None,
                forall|q: Seq<Seq<char>>| #[trigger] lookup_in(kept@, q) == (if is_prefix(dp, q) {
                    lookup_in(full.subrange(0, i as int), sp + q.skip(dp.len() as int))
                } else {
                    lookup_in(full.subrange(0, i as int), q)
                }),
                forall|a: int, b: int|
                    0 <= a < b < kept@.len() ==> path_of(#[trigger] kept@[a].0@) != path_of(
                        #[trigger] kept@[b].0@,
                    ),
                forall|j: int| 0 <= j < kept@.len() ==> (#[trigger] kept@[j].0@).len() >= 1,
            decreases full.len() - i,
        {
            let ghost kept0 = kept@;
            let ghost cur = full[i as int];
            let ghost curp = path_of(cur.0@);
            let ghost subi = full.subrange(0, i as int);
            let ghost subi1 = full.subrange(0, i as int + 1);
            proof {
                assert(subi1 =~= subi.push(cur));
                assert forall|q: Seq<Seq<char>>| #[trigger] lookup_in(subi1, q) == (if lookup_in(
                    subi,
                    q,
                ) is Some {
                    lookup_in(subi, q)
                } else if curp == q {
                    Some(node_view(cur.1))
                } else {
                    None
                }) by {
                    lemma_lookup_push(subi, cur, q);
                }
                lemma_lookup_found(full, i as int, curp);
                assert(forall|j: int| 0 <= j < i ==> subi[j] == #[trigger] full[j]);
                lemma_lookup_absent(subi, curp);
                assert(lookup_in(subi, curp) is None);
                assert(!is_prefix(dp, curp));
            }
            // keep the original entry
            let plen = self.entries[i].0.len();
            let pc = clone_path_prefix(self.entries[i].0.as_slice(), plen);
            let nd = clone_node(&self.entries[i].1);
            proof {
                assert(path_of(pc@) =~= curp);
                assert(lookup_in(kept0, curp) == lookup_in(subi, curp));
                lemma_lookup_absent(kept0, curp);
            }
            kept.push((pc, nd));
            let ghost kept_a = kept@;
            proof {
                assert(kept_a.drop_last() =~= kept0);
                assert(node_view(kept_a.last().1) == node_view(cur.1));
                assert(path_of(kept_a.last().0@) == curp);
                assert forall|q: Seq<Seq<char>>| #[trigger] lookup_in(kept_a, q) == (if q == curp {
                    Some(node_view(cur.1))
                } else {
                    lookup_in(kept0, q)
                }) by {
                    lemma_lookup_push(kept0, kept_a.last(), q);
                }
                // intermediate shape: copies lag one entry behind originals
                assert forall|q: Seq<Seq<char>>| #[trigger] lookup_in(kept_a, q) == (if is_prefix(
                    dp,
                    q,
                ) {
                    lookup_in(subi, sp + q.skip(dp.len() as int))
                } else {
                    lookup_in(subi1, q)
                }) by {
                    if is_prefix(dp, q) {
                        assert(q != curp);
                    }
                }
            }
            let copied = path_starts_with(&self.entries[i].0, src);
            if copied {
                let np = rebase_path(dst, &self.entries[i].0, src.len());
                let nd2 = clone_node(&self.entries[i].1);
                let ghost npp = path_of(np@);
                proof {
                    assert(npp == dp + curp.skip(sp.len() as int));
                    lemma_concat_parts(dp, curp.skip(sp.len() as int));
                    assert(is_prefix(dp, npp));
                    assert(npp.skip(dp.len() as int) == curp.skip(sp.len() as int));
                    lemma_split_at_prefix(curp, sp);
                    assert(sp + npp.skip(dp.len() as int) == curp);
                    assert(lookup_in(kept_a, npp) == lookup_in(subi, curp));
                    lemma_lookup_absent(kept_a, npp);
                }
                kept.push((np, nd2));
                proof {
                    assert(kept@.drop_last() =~= kept_a);
                    assert(node_view(kept@.last().1) == node_view(cur.1));
                    assert(path_of(kept@.last().0@) == npp);
                    assert forall|q: Seq<Seq<char>>| #[trigger] lookup_in(kept@, q) == (if q == npp {
                        Some(node_view(cur.1))
                    } else {
                        lookup_in(kept_a, q)
                    }) by {
                        lemma_lookup_push(kept_a, kept@.last(), q);
                    }
                    assert forall|q: Seq<Seq<char>>| #[trigger] lookup_in(kept@, q) == (if
                        is_prefix(dp, q) {
                        lookup_in(subi1, sp + q.skip(dp.len() as int))
                    } else {
                        lookup_in(subi1, q)
                    }) by {
                        if is_prefix(dp, q) {
                            lemma_split_at_prefix(q, dp);
                            if q == npp {
                                assert(sp + q.skip(dp.len() as int) == curp);
                            } else {
                                if sp + q.skip(dp.len() as int) == curp {
                                    lemma_concat_parts(sp, q.skip(dp.len() as int));
                                    assert(q.skip(dp.len() as int) == curp.skip(sp.len() as int));
                                    assert(q == dp + q.skip(dp.len() as int));
                                    assert(false);
                                }
                            }
                        } else {
                            assert(q != npp);
                        }
                    }
                }
            } else {
                proof {
                    assert forall|q: Seq<Seq<char>>| #[trigger] lookup_in(kept@, q) == (if
                        is_prefix(dp, q) {
                        lookup_in(subi1, sp + q.skip(dp.len() as int))
                    } else {
                        lookup_in(subi1, q)
                    }) by {
                        if is_prefix(dp, q) {
                            if sp + q.skip(dp.len() as int) == curp {
                                lemma_concat_parts(sp, q.skip(dp.len() as int));
                                assert(is_prefix(sp, curp));
                                assert(false);
                            }
                        }
                    }
                }
            }
            i = i + 1;
        }
        proof {
            assert(full.subrange(0, full.len() as int) =~= full);
        }
        let ghost kept_view = kept@;
        self.entries = kept;
        proof {
            assert(self.entries_seq() == kept_view);
            assert forall|a: int, b: int|
                0 <= a < b < self.entries_seq().len() implies path_of(
                #[trigger] self.entries_seq()[a].0@,
            ) != path_of(#[trigger] self.entries_seq()[b].0@) by {
                assert(self.entries_seq()[a] == kept_view[a]);
                assert(self.entries_seq()[b] == kept_view[b]);
            }
            assert forall|j: int|
                0 <= j < self.entries_seq().len() implies (#[trigger] self.entries_seq()[j].0@).len()
                >= 1 by {
                assert(self.entries_seq()[j] == kept_view[j]);
            }
            self.lemma_cp_closure(mid, full, sp, dp);
            assert forall|q: Seq<Seq<char>>| #[trigger] self.lookup(q) == (if is_prefix(dp, q) {
                d0.lookup(sp + q.skip(dp.len() as int))
            } else if proper_prefix(q, dp) && d0.lookup(q) is None {
                Some(NodeView::Dir { mtime: now })
            } else {
                d0.lookup(q)
            }) by {
                if is_prefix(dp, q) {
                    let c = sp + q.skip(dp.len() as int);
                    lemma_concat_parts(sp, q.skip(dp.len() as int));
                    if proper_prefix(c, dp) {
                        lemma_prefix_trans(sp, c, dp);
                        assert(false);
                    }
                    assert(self.lookup(q) == lookup_in(full, c));
                    assert(lookup_in(full, c) == mid.lookup(c));
                    assert(mid.lookup(c) == d0.lookup(c));
                } else {
                    assert(self.lookup(q) == lookup_in(full, q));
                    assert(lookup_in(full, q) == mid.lookup(q));
                }
            }
            assert(cp_post(d0, *self, sp, dp, now));
        }
        Ok(())
    }

    /// The rebuilt entry list of a copy keeps every ancestor a directory.
    proof fn lemma_cp_closure(
        &self,
        mid: PrivateDirectory,
        full: Seq<(Vec<String>, NodeData)>,
        sp: Seq<Seq<char>>,
        dp: Seq<Seq<char>>,
    )
        requires
            mid.wf(),
            full == mid.entries_seq(),
            sp.len() >= 1,
            dp.len() >= 1,
            !is_prefix(sp, dp),
            lookup_in(full, sp) is Some,
            forall|q: Seq<Seq<char>>| is_prefix(dp, q) ==> #[trigger] lookup_in(full, q) is None,
            forall|kk: int| 1 <= kk < dp.len() ==> (#[trigger] lookup_in(
                full,
                dp.subrange(0, kk),
            )) matches Some(NodeView::Dir { .. }),
            forall|q: Seq<Seq<char>>| #[trigger] lookup_in(self.entries_seq(), q) == (if is_prefix(
                dp,
                q,
            ) {
                lookup_in(full, sp + q.skip(dp.len() as int))
            } else {
                lookup_in(full, q)
            }),
            forall|a: int, b: int|
                0 <= a < b < self.entries_seq().len() ==> path_of(
                    #[trigger] self.entries_seq()[a].0@,
                ) != path_of(#[trigger] self.entries_seq()[b].0@),
            forall|j: int| 0 <= j < self.entries_seq().len() ==> (
            #[trigger] self.entries_seq()[j].0@).len() >= 1,
        ensures
            self.wf(),
    {
        assert forall|j: int, kk: int|
            0 <= j < self.entries_seq().len() && 1 <= kk < self.entries_seq()[j].0@.len() implies (
        #[trigger] lookup_in(self.entries_seq(), path_of(self.entries_seq()[j].0@).subrange(
            0,
            kk,
        ))) matches Some(NodeView::Dir { .. }) by {
            let pj = path_of(self.entries_seq()[j].0@);
            let anc = pj.subrange(0, kk);
            assert(is_prefix(anc, pj));
            lemma_lookup_found(self.entries_seq(), j, pj);
            assert(lookup_in(self.entries_seq(), pj) is Some);
            if is_prefix(dp, pj) {
                let t = pj.skip(dp.len() as int);
                let c = sp + t;
                lemma_concat_parts(sp, t);
                assert(lookup_in(full, c) is Some);
                lemma_lookup_absent(full, c);
                let w = choose|w: int|
                    0 <= w < full.len() && path_of(#[trigger] full[w].0@) == c;
                if kk > dp.len() {
                    assert(is_prefix(dp, anc)) by {
                        assert(anc.subrange(0, dp.len() as int) =~= pj.subrange(
                            0,
                            dp.len() as int,
                        ));
                    }
                    let m = kk - dp.len();
                    let kk2 = sp.len() as int + m;
                    assert(c.len() == sp.len() + pj.len() - dp.len());
                    assert(1 <= kk2 < c.len());
                    assert(lookup_in(full, path_of(full[w].0@).subrange(0, kk2)) matches Some(
                        NodeView::Dir { .. },
                    ));
                    assert(c.subrange(0, kk2) =~= sp + anc.skip(dp.len() as int));
                    assert(lookup_in(self.entries_seq(), anc) == lookup_in(
                        full,
                        sp + anc.skip(dp.len() as int),
                    ));
                    assert(lookup_in(full, sp + anc.skip(dp.len() as int)) == lookup_in(
                        full,
                        c.subrange(0, kk2),
                    ));
                } else if kk == dp.len() {
                    assert(anc =~= dp);
                    assert(anc.subrange(0, dp.len() as int) =~= dp);
                    assert(is_prefix(dp, anc));
                    assert(pj.len() > dp.len());
                    assert(c.len() > sp.len());
                    assert(1 <= sp.len() < c.len());
                    assert(lookup_in(full, path_of(full[w].0@).subrange(0, sp.len() as int))
                        matches Some(NodeView::Dir { .. }));
                    assert(c.subrange(0, sp.len() as int) =~= sp);
                    assert(anc.skip(dp.len() as int) =~= Seq::<Seq<char>>::empty());
                    assert(sp + anc.skip(dp.len() as int) =~= sp);
                    assert(lookup_in(self.entries_seq(), anc) == lookup_in(
                        full,
                        sp + anc.skip(dp.len() as int),
                    ));
                } else {
                    assert(anc =~= dp.subrange(0, kk));
                    if is_prefix(dp, anc) {
                        assert(false);
                    }
                    assert(lookup_in(self.entries_seq(), anc) == lookup_in(full, anc));
                }
            } else {
                if is_prefix(dp, anc) {
                    lemma_prefix_trans(dp, anc, pj);
                    assert(false);
                }
                assert(lookup_in(self.entries_seq(), anc) == lookup_in(full, anc));
                assert(lookup_in(self.entries_seq(), pj) == lookup_in(full, pj));
                lemma_lookup_absent(full, pj);
                let w = choose|w: int|
                    0 <= w < full.len() && path_of(#[trigger] full[w].0@) == pj;
                assert(lookup_in(full, path_of(full[w].0@).subrange(0, kk)) matches Some(
                    NodeView::Dir { .. },
                ));
                assert(path_of(full[w].0@).subrange(0, kk) =~= anc);
            }
        }
    }

    /// The mathematical content of the whole tree, in entry order.
    pub closed spec fn fs_view(&self) -> Seq<(Seq<Seq<char>>, NodeView)> {
        fs_views(self.entries@)
    }

    /// Two trees with the same content resolve every path alike and are
    /// equally well formed.
    pub proof fn lemma_view_determines(&self, other: &PrivateDirectory)
        requires
            self.fs_view() == other.fs_view(),
        ensures
            forall|q: Seq<Seq<char>>| #[trigger] self.lookup(q) == other.lookup(q),
            self.wf() <==> other.wf(),
    {
        assert forall|q: Seq<Seq<char>>| #[trigger] self.lookup(q) == other.lookup(q) by {
            lemma_lookup_of_views(self.entries_seq(), other.entries_seq(), q);
        }
        lemma_fs_views_len(self.entries_seq());
        lemma_fs_views_len(other.entries_seq());
        assert(self.entries_seq().len() == other.entries_seq().len());
        if self.wf() {
            other.lemma_wf_from(self);
        }
        if other.wf() {
            self.lemma_wf_from(other);
        }
    }

    /// Well-formedness carries over to a tree with the same content.
    proof fn lemma_wf_from(&self, other: &PrivateDirectory)
        requires
            self.fs_view() == other.fs_view(),
            other.wf(),
        ensures
            self.wf(),
    {
        let s1 = self.entries_seq();
        let s2 = other.entries_seq();
        lemma_fs_views_len(s1);
        lemma_fs_views_len(s2);
        assert(s1.len() == s2.len());
        assert forall|i: int|
            0 <= i < s1.len() implies path_of(#[trigger] s1[i].0@) == path_of(s2[i].0@) && node_view(
            s1[i].1,
        ) == node_view(s2[i].1) by {
            assert(fs_views(s1)[i] == fs_views(s2)[i]);
        }
        assert forall|a: int, b: int|
            0 <= a < b < s1.len() implies path_of(#[trigger] s1[a].0@) != path_of(
            #[trigger] s1[b].0@,
        ) by {
            assert(path_of(s2[a].0@) != path_of(s2[b].0@));
        }
        assert forall|i: int| 0 <= i < s1.len() implies (#[trigger] s1[i].0@).len() >= 1 by {
            assert(path_of(s1[i].0@).len() == s1[i].0@.len());
            assert(path_of(s2[i].0@).len() == s2[i].0@.len());
            assert(s2[i].0@.len() >= 1);
        }
        assert forall|i: int, k: int|
            0 <= i < s1.len() && 1 <= k < s1[i].0@.len() implies (#[trigger] lookup_in(
            s1,
            path_of(s1[i].0@).subrange(0, k),
        )) matches Some(NodeView::Dir { .. }) by {
            assert(fs_views(s1)[i] == fs_views(s2)[i]);
            assert(path_of(s1[i].0@) == path_of(s2[i].0@));
            assert(path_of(s1[i].0@).len() == s1[i].0@.len());
            assert(path_of(s2[i].0@).len() == s2[i].0@.len());
            assert(s1[i].0@.len() == s2[i].0@.len());
            assert(lookup_in(s2, path_of(s2[i].0@).subrange(0, k)) matches Some(
                NodeView::Dir { .. },
            ));
            lemma_lookup_of_views(s1, s2, path_of(s1[i].0@).subrange(0, k));
            assert(path_of(s1[i].0@).subrange(0, k) == path_of(s2[i].0@).subrange(0, k));
        }
    }

    /// Decides well-formedness of an arbitrary entry list.
    fn check_wf(&self) -> (r: bool)
        ensures
            r == self.wf(),
    {
        // pairwise distinct, non-empty paths
        let mut i: usize = 0;
        while i < self.entries.len()
            invariant
                i <= self.entries_seq().len(),
                forall|a: int, b: int|
                    0 <= a < b < i ==> path_of(#[trigger] self.entries_seq()[a].0@) != path_of(
                        #[trigger] self.entries_seq()[b].0@,
                    ),
                forall|a: int| 0 <= a < i ==> (#[trigger] self.entries_seq()[a].0@).len() >= 1,
            decreases self.entries_seq().len() - i,
        {
            if self.entries[i].0.len() == 0 {
                proof {
                    assert(self.entries_seq()[i as int].0@.len() == 0);
                }
                return false;
            }
            let mut j: usize = 0;
            while j < i
                invariant
                    j <= i < self.entries_seq().len(),
                    forall|a: int|
                        0 <= a < j ==> path_of(#[trigger] self.entries_seq()[a].0@) != path_of(
                            self.entries_seq()[i as int].0@,
                        ),
                decreases i - j,
            {
                if path_eq(&self.entries[j].0, self.entries[i].0.as_slice()) {
                    proof {
                        assert(path_of(self.entries_seq()[j as int].0@) == path_of(
                            self.entries_seq()[i as int].0@,
                        ));
                    }
                    return false;
                }
                proof {
                    assert(self.entries_seq()[j as int] == self.entries@[j as int]);
                }
                j = j + 1;
            }
            proof {
                assert(self.entries_seq()[i as int] == self.entries@[i as int]);
            }
            i = i + 1;
        }
        // every proper ancestor present as a directory
        let mut i2: usize = 0;
        while i2 < self.entries.len()
            invariant
                i2 <= self.entries_seq().len(),
                self.unique_paths(),
                forall|a: int| 0 <= a < self.entries_seq().len() ==> (
                #[trigger] self.entries_seq()[a].0@).len() >= 1,
                forall|a: int, k: int|
                    0 <= a < i2 && 1 <= k < self.entries_seq()[a].0@.len() ==> (#[trigger] lookup_in(
                        self.entries_seq(),
                        path_of(self.entries_seq()[a].0@).subrange(0, k),
                    )) matches Some(NodeView::Dir { .. }),
            decreases self.entries_seq().len() - i2,
        {
            let mut k: usize = 1;
            while k < self.entries[i2].0.len()
                invariant
                    i2 < self.entries_seq().len(),
                    self.unique_paths(),
                    1 <= k <= self.entries_seq()[i2 as int].0@.len(),
                    forall|kk: int|
                        1 <= kk < k ==> (#[trigger] lookup_in(
                            self.entries_seq(),
                            path_of(self.entries_seq()[i2 as int].0@).subrange(0, kk),
                        )) matches Some(NodeView::Dir { .. }),
                decreases self.entries_seq()[i2 as int].0@.len() - k,
            {
                let r = self.find_index_prefix(self.entries[i2].0.as_slice(), k);
                match r {
                    None => {
                        proof {
                            assert(!(lookup_in(
                                self.entries_seq(),
                                path_of(self.entries_seq()[i2 as int].0@).subrange(0, k as int),
                            ) matches Some(NodeView::Dir { .. })));
                        }
                        return false;
                    },
                    Some(w) => {
                        match &self.entries[w].1 {
                            NodeData::Dir { .. } => {
                                proof {
                                    assert(self.entries_seq()[w as int] == self.entries@[w as int]);
                                }
                            },
                            NodeData::File { .. } => {
                                proof {
                                    assert(self.entries_seq()[w as int] == self.entries@[
                                        w as int]);
                                }
                                return false;
                            },
                        }
                    },
                }
                k = k + 1;
            }
            i2 = i2 + 1;
        }
        true
    }

    /// The byte encoding of this tree.
    pub fn encode(&self) -> (r: Vec<u8>)
        ensures
            r@ == enc_fs(self.fs_view()),
            fs_sized(self.fs_view()),
            self.fs_view().len() <= u64::MAX,
    {
        let ghost v = self.fs_view();
        let n = self.entries.len();
        proof {
            lemma_fs_views_len(self.entries_seq());
            assert(v.len() == n);
        }
        let mut out: Vec<u8> = Vec::new();
        push_u64_le(&mut out, self.entries.len() as u64);
        let ghost head = out@;
        let mut i: usize = 0;
        proof {
            assert(v.subrange(0, 0) =~= Seq::<(Seq<Seq<char>>, NodeView)>::empty());
        }
        while i < self.entries.len()
            invariant
                i <= self.entries_seq().len(),
                v == self.fs_view(),
                v.len() == self.entries_seq().len(),
                head == u64_le_seq(v.len() as u64),
                out@ == head + enc_fs_entries(v.subrange(0, i as int)),
                forall|j: int|
                    0 <= j < i ==> {
                        let e = #[trigger] v[j];
                        &&& e.0.len() <= u64::MAX
                        &&& (forall|k: int|
                            0 <= k < e.0.len() ==> vstd::utf8::encode_utf8(#[trigger] e.0[k]).len()
                                <= u64::MAX)
                        &&& (e.1 matches NodeView::File { content, .. } ==> content.len()
                            <= u64::MAX)
                    },
            decreases self.entries_seq().len() - i,
        {
            let ghost e = v[i as int];
            proof {
                lemma_fs_views_len(self.entries_seq());
            }
            // the path
            let seg_count = self.entries[i].0.len();
            push_u64_le(&mut out, seg_count as u64);
            let ghost segs_head = out@;
            let mut t: usize = 0;
            proof {
                assert(e.0.subrange(0, 0) =~= Seq::<Seq<char>>::empty());
                assert(e.0 == path_of(self.entries_seq()[i as int].0@));
                assert(e.0.len() == seg_count);
            }
            while t < self.entries[i].0.len()
                invariant
                    i < self.entries_seq().len(),
                    v == self.fs_view(),
                    t <= self.entries_seq()[i as int].0@.len(),
                    e == v[i as int],
                    e.0 == path_of(self.entries_seq()[i as int].0@),
                    out@ == segs_head + enc_segs(e.0.subrange(0, t as int)),
                    forall|k: int| 0 <= k < t ==> vstd::utf8::encode_utf8(#[trigger] e.0[k]).len()
                        <= u64::MAX,
                decreases self.entries_seq()[i as int].0@.len() - t,
            {
                push_str_enc(&mut out, self.entries[i].0[t].as_str());
                proof {
                    lemma_enc_segs_push(e.0.subrange(0, t as int), e.0[t as int]);
                    assert(e.0.subrange(0, t as int).push(e.0[t as int]) =~= e.0.subrange(
                        0,
                        t as int + 1,
                    ));
                    assert(out@ =~= segs_head + enc_segs(e.0.subrange(0, t as int + 1)));
                    assert(vstd::utf8::encode_utf8(e.0[t as int]).len() <= u64::MAX);
                }
                t = t + 1;
            }
            proof {
                assert(e.0.subrange(0, e.0.len() as int) =~= e.0);
                assert(out@ == segs_head + enc_segs(e.0));
            }
            // the node
            match &self.entries[i].1 {
                NodeData::File { content, mtime } => {
                    let clen = content.len();
                    proof {
                        assert(content@.len() == clen);
                    }
                    out.push(0u8);
                    push_i64(&mut out, *mtime);
                    push_bytes(&mut out, content.as_slice());
                    proof {
                        assert(e.1 == NodeView::File { content: content@, mtime: *mtime });
                        assert(out@ =~= segs_head + enc_segs(e.0) + enc_node(e.1));
                    }
                },
                NodeData::Dir { mtime } => {
                    out.push(1u8);
                    push_i64(&mut out, *mtime);
                    proof {
                        assert(e.1 == NodeView::Dir { mtime: *mtime });
                        assert(out@ =~= segs_head + enc_segs(e.0) + enc_node(e.1));
                    }
                },
            }
            proof {
                lemma_enc_fs_entries_push(v.subrange(0, i as int), e);
                assert(v.subrange(0, i as int).push(e) =~= v.subrange(0, i as int + 1));
                assert(segs_head =~= head + enc_fs_entries(v.subrange(0, i as int)) + u64_le_seq(
                    e.0.len() as u64,
                ));
                assert(out@ =~= head + enc_fs_entries(v.subrange(0, i as int + 1)));
            }
            i = i + 1;
        }
        proof {
            assert(v.subrange(0, v.len() as int) =~= v);
            assert(out@ =~= enc_fs(v));
        }
        out
    }

    /// Parses a tree from its byte encoding and validates its invariant;
    /// fails with `DecryptionError` when the bytes are malformed or describe
    /// an ill-formed tree.
    pub fn decode(b: &Vec<u8>) -> (r: Result<PrivateDirectory, FsError>)
        ensures
            match r {
                Ok(f) => dec_fs_spec(b@) == Some(f.fs_view()) && f.wf(),
                Err(e) => e == FsError::DecryptionError && (match dec_fs_spec(b@) {
                    None => true,
                    Some(dv) => forall|g: PrivateDirectory| #[trigger] g.fs_view() == dv
                        ==> !g.wf(),
                }),
            },
    {
        let (n, p) = match read_u64_le(b, 0) {
            Ok(x) => x,
            Err(_) => { return Err(FsError::DecryptionError); },
        };
        let (entries, p2) = match Self::read_fs_entries(b, p, n) {
            Ok(x) => x,
            Err(_) => { return Err(FsError::DecryptionError); },
        };
        if p2 != b.len() {
            return Err(FsError::DecryptionError);
        }
        let f = PrivateDirectory { entries };
        if f.check_wf() {
            Ok(f)
        } else {
            proof {
                assert forall|g: PrivateDirectory| #[trigger] g.fs_view() == f.fs_view()
                    implies !g.wf() by {
                    if g.wf() {
                        f.lemma_wf_from(&g);
                    }
                }
            }
            Err(FsError::DecryptionError)
        }
    }

    /// Parses `n` consecutive entries starting at `pos`.
    fn read_fs_entries(b: &Vec<u8>, pos: usize, n: u64) -> (r: Result<
        (Vec<(Vec<String>, NodeData)>, usize),
        FsError,
    >)
        ensures
            match r {
                Ok((v, p)) => dec_fs_entries_spec(b@, pos as int, n as nat) == Some(
                    (fs_views(v@), p as int),
                ) && v@.len() == n,
                Err(e) => e == FsError::DecryptionError && dec_fs_entries_spec(
                    b@,
                    pos as int,
                    n as nat,
                ) is None,
            },
        decreases n,
    {
        if n == 0 {
            let v: Vec<(Vec<String>, NodeData)> = Vec::new();
            proof {
                assert(fs_views(v@) =~= Seq::<(Seq<Seq<char>>, NodeView)>::empty());
            }
            return Ok((v, pos));
        }
        let (path, p1) = Self::read_path(b, pos)?;
        let (node, p2) = Self::read_node(b, p1)?;
        let ghost e = (path_of(path@), node_view(node));
        let (mut rest, p3) = Self::read_fs_entries(b, p2, n - 1)?;
        let ghost rest0 = rest@;
        rest.insert(0, (path, node));
        proof {
            lemma_fs_views_len(rest@);
            lemma_fs_views_len(rest0);
            assert(rest@.drop_first() =~= rest0);
            assert(fs_views(rest@) =~= seq![e] + fs_views(rest0));
        }
        Ok((rest, p3))
    }

    /// Parses one path starting at `pos`.
    fn read_path(b: &Vec<u8>, pos: usize) -> (r: Result<(Vec<String>, usize), FsError>)
        ensures
            match r {
                Ok((v, p)) => dec_path_spec(b@, pos as int) == Some((path_of(v@), p as int)),
                Err(e) => e == FsError::DecryptionError && dec_path_spec(b@, pos as int) is None,
            },
    {
        let (n, p) = read_u64_le(b, pos)?;
        Self::read_segs(b, p, n)
    }

    /// Parses `n` consecutive segments starting at `pos`.
    fn read_segs(b: &Vec<u8>, pos: usize, n: u64) -> (r: Result<(Vec<String>, usize), FsError>)
        ensures
            match r {
                Ok((v, p)) => dec_segs_spec(b@, pos as int, n as nat) == Some(
                    (path_of(v@), p as int),
                ) && v@.len() == n,
                Err(e) => e == FsError::DecryptionError && dec_segs_spec(
                    b@,
                    pos as int,
                    n as nat,
                ) is None,
            },
        decreases n,
    {
        if n == 0 {
            let v: Vec<String> = Vec::new();
            proof {
                assert(path_of(v@) =~= Seq::<Seq<char>>::empty());
            }
            return Ok((v, pos));
        }
        let (t, p1) = read_str(b, pos)?;
        let ghost tv = t@;
        let (mut rest, p2) = Self::read_segs(b, p1, n - 1)?;
        rest.insert(0, t);
        proof {
            assert(path_of(rest@) =~= seq![tv] + path_of(rest@.drop_first()));
        }
        Ok((rest, p2))
    }

    /// Parses one node starting at `pos`.
    fn read_node(b: &Vec<u8>, pos: usize) -> (r: Result<(NodeData, usize), FsError>)
        ensures
            match r {
                Ok((nd, p)) => dec_node_spec(b@, pos as int) == Some((node_view(nd), p as int)),
                Err(e) => e == FsError::DecryptionError && dec_node_spec(b@, pos as int) is None,
            },
    {
        if pos >= b.len() {
            return Err(FsError::DecryptionError);
        }
        let tag = b[pos];
        if tag == 0 {
            let (mtime, p1) = read_i64(b, pos + 1)?;
            let (content, p2) = read_bytes(b, p1)?;
            Ok((NodeData::File { content, mtime }, p2))
        } else if tag == 1 {
            let (mtime, p1) = read_i64(b, pos + 1)?;
            Ok((NodeData::Dir { mtime }, p1))
        } else {
            Err(FsError::DecryptionError)
        }
    }

    /// The rebuilt entry list of a move keeps every ancestor a directory.
    proof fn lemma_mv_closure(
        &self,
        mid: PrivateDirectory,
        full: Seq<(Vec<String>, NodeData)>,
        sp: Seq<Seq<char>>,
        dp: Seq<Seq<char>>,
    )
        requires
            mid.wf(),
            full == mid.entries_seq(),
            sp.len() >= 1,
            dp.len() >= 1,
            !is_prefix(sp, dp),
            lookup_in(full, sp) is Some,
            forall|q: Seq<Seq<char>>| is_prefix(dp, q) ==> #[trigger] lookup_in(full, q) is None,
            forall|kk: int| 1 <= kk < dp.len() ==> (#[trigger] lookup_in(
                full,
                dp.subrange(0, kk),
            )) matches Some(NodeView::Dir { .. }),
            forall|q: Seq<Seq<char>>| #[trigger] lookup_in(self.entries_seq(), q) == (if is_prefix(
                dp,
                q,
            ) {
                lookup_in(full, sp + q.skip(dp.len() as int))
            } else if is_prefix(sp, q) {
                None::<NodeView>
            } else {
                lookup_in(full, q)
            }),
            forall|a: int, b: int|
                0 <= a < b < self.entries_seq().len() ==> path_of(
                    #[trigger] self.entries_seq()[a].0@,
                ) != path_of(#[trigger] self.entries_seq()[b].0@),
            forall|j: int| 0 <= j < self.entries_seq().len() ==> (
            #[trigger] self.entries_seq()[j].0@).len() >= 1,
        ensures
            self.wf(),
    {
        assert forall|j: int, kk: int|
            0 <= j < self.entries_seq().len() && 1 <= kk < self.entries_seq()[j].0@.len() implies (
        #[trigger] lookup_in(self.entries_seq(), path_of(self.entries_seq()[j].0@).subrange(
            0,
            kk,
        ))) matches Some(NodeView::Dir { .. }) by {
            let pj = path_of(self.entries_seq()[j].0@);
            let anc = pj.subrange(0, kk);
            assert(is_prefix(anc, pj));
            lemma_lookup_found(self.entries_seq(), j, pj);
            assert(lookup_in(self.entries_seq(), pj) is Some);
            if is_prefix(dp, pj) {
                let t = pj.skip(dp.len() as int);
                let c = sp + t;
                lemma_concat_parts(sp, t);
                assert(lookup_in(full, c) is Some);
                lemma_lookup_absent(full, c);
                let w = choose|w: int|
                    0 <= w < full.len() && path_of(#[trigger] full[w].0@) == c;
                if kk > dp.len() {
                    assert(is_prefix(dp, anc)) by {
                        assert(anc.subrange(0, dp.len() as int) =~= pj.subrange(
                            0,
                            dp.len() as int,
                        ));
                    }
                    let m = kk - dp.len();
                    let kk2 = sp.len() as int + m;
                    assert(c.len() == sp.len() + pj.len() - dp.len());
                    assert(1 <= kk2 < c.len());
                    assert(lookup_in(full, path_of(full[w].0@).subrange(0, kk2)) matches Some(
                        NodeView::Dir { .. },
                    ));
                    assert(c.subrange(0, kk2) =~= sp + anc.skip(dp.len() as int));
                    assert(is_prefix(dp, anc));
                    assert(lookup_in(self.entries_seq(), anc) == lookup_in(
                        full,
                        sp + anc.skip(dp.len() as int),
                    ));
                    assert(lookup_in(full, sp + anc.skip(dp.len() as int)) == lookup_in(
                        full,
                        c.subrange(0, kk2),
                    ));
                } else if kk == dp.len() {
                    assert(anc =~= dp);
                    assert(anc.subrange(0, dp.len() as int) =~= dp);
                    assert(is_prefix(dp, anc));
                    assert(pj.len() > dp.len());
                    assert(c.len() > sp.len());
                    assert(1 <= sp.len() < c.len());
                    assert(lookup_in(full, path_of(full[w].0@).subrange(0, sp.len() as int))
                        matches Some(NodeView::Dir { .. }));
                    assert(c.subrange(0, sp.len() as int) =~= sp);
                    assert(anc.skip(dp.len() as int) =~= Seq::<Seq<char>>::empty());
                    assert(sp + anc.skip(dp.len() as int) =~= sp);
                    assert(lookup_in(self.entries_seq(), anc) == lookup_in(
                        full,
                        sp + anc.skip(dp.len() as int),
                    ));
                } else {
                    assert(anc =~= dp.subrange(0, kk));
                    if is_prefix(dp, anc) {
                        assert(false);
                    }
                    if is_prefix(sp, anc) {
                        lemma_prefix_trans(sp, anc, dp);
                        assert(false);
                    }
                    assert(lookup_in(self.entries_seq(), anc) == lookup_in(full, anc));
                }
            } else if is_prefix(sp, pj) {
                assert(lookup_in(self.entries_seq(), pj) is None);
                assert(false);
            } else {
                if is_prefix(dp, anc) {
                    lemma_prefix_trans(dp, anc, pj);
                    assert(false);
                }
                if is_prefix(sp, anc) {
                    lemma_prefix_trans(sp, anc, pj);
                    assert(false);
                }
                assert(lookup_in(self.entries_seq(), anc) == lookup_in(full, anc));
                assert(lookup_in(self.entries_seq(), pj) == lookup_in(full, pj));
                lemma_lookup_absent(full, pj);
                let w = choose|w: int|
                    0 <= w < full.len() && path_of(#[trigger] full[w].0@) == pj;
                assert(lookup_in(full, path_of(full[w].0@).subrange(0, kk)) matches Some(
                    NodeView::Dir { .. },
                ));
                assert(path_of(full[w].0@).subrange(0, kk) =~= anc);
            }
        }
    }
}

// ---------------------------------------------------------------------------
// persistence: the byte encoding of the tree
// ---------------------------------------------------------------------------

/// The mathematical content of one entry: its path and node.
pub open spec fn fs_views(s: Seq<(Vec<String>, NodeData)>) -> Seq<(Seq<Seq<char>>, NodeView)> {
    Seq::new(s.len(), |i: int| (path_of(s[i].0@), node_view(s[i].1)))
}

/// The byte encoding of a path's segments, in order.
pub open spec fn enc_segs(p: Seq<Seq<char>>) -> Seq<u8>
    decreases p.len(),
{
    if p.len() == 0 {
        Seq::empty()
    } else {
        enc_str(p[0]) + enc_segs(p.drop_first())
    }
}

/// Appending one segment extends the encoding at the back.
pub proof fn lemma_enc_segs_push(p: Seq<Seq<char>>, t: Seq<char>)
    ensures
        enc_segs(p.push(t)) == enc_segs(p) + enc_str(t),
    decreases p.len(),
{
    if p.len() == 0 {
        assert(p.push(t).drop_first() =~= Seq::<Seq<char>>::empty());
        assert(p.push(t)[0] == t);
        assert(enc_segs(Seq::<Seq<char>>::empty()) == Seq::<u8>::empty());
        assert(enc_segs(p.push(t)) == enc_str(t) + Seq::<u8>::empty());
        assert(enc_segs(p.push(t)) =~= enc_segs(p) + enc_str(t));
    } else {
        assert(p.push(t).drop_first() =~= p.drop_first().push(t));
        assert(p.push(t)[0] == p[0]);
        lemma_enc_segs_push(p.drop_first(), t);
        assert(enc_segs(p.push(t)) == enc_str(p[0]) + (enc_segs(p.drop_first()) + enc_str(t)));
        assert(enc_segs(p.push(t)) =~= enc_segs(p) + enc_str(t));
    }
}

/// The byte encoding of a path: its segment count, then its segments.
pub open spec fn enc_path(p: Seq<Seq<char>>) -> Seq<u8> {
    u64_le_seq(p.len() as u64) + enc_segs(p)
}

/// The byte encoding of a node: a tag byte, the timestamp, and for files
/// the content.
pub open spec fn enc_node(n: NodeView) -> Seq<u8> {
    match n {
        NodeView::File { content, mtime } => seq![0u8] + enc_i64(mtime) + enc_bytes(content),
        NodeView::Dir { mtime } => seq![1u8] + enc_i64(mtime),
    }
}

/// The byte encoding of a list of entries, in order.
pub open spec fn enc_fs_entries(v: Seq<(Seq<Seq<char>>, NodeView)>) -> Seq<u8>
    decreases v.len(),
{
    if v.len() == 0 {
        Seq::empty()
    } else {
        enc_path(v[0].0) + enc_node(v[0].1) + enc_fs_entries(v.drop_first())
    }
}

/// Appending one entry extends the encoding at the back.
pub proof fn lemma_enc_fs_entries_push(v: Seq<(Seq<Seq<char>>, NodeView)>, e: (Seq<Seq<char>>, NodeView))
    ensures
        enc_fs_entries(v.push(e)) == enc_fs_entries(v) + (enc_path(e.0) + enc_node(e.1)),
    decreases v.len(),
{
    if v.len() == 0 {
        assert(v.push(e).drop_first() =~= Seq::<(Seq<Seq<char>>, NodeView)>::empty());
        assert(v.push(e)[0] == e);
        assert(enc_fs_entries(Seq::<(Seq<Seq<char>>, NodeView)>::empty()) == Seq::<u8>::empty());
        assert(enc_fs_entries(v.push(e)) =~= enc_fs_entries(v) + (enc_path(e.0) + enc_node(e.1)));
    } else {
        assert(v.push(e).drop_first() =~= v.drop_first().push(e));
        assert(v.push(e)[0] == v[0]);
        lemma_enc_fs_entries_push(v.drop_first(), e);
        assert(enc_fs_entries(v.push(e)) == enc_path(v[0].0) + enc_node(v[0].1) + (enc_fs_entries(
            v.drop_first(),
        ) + (enc_path(e.0) + enc_node(e.1))));
        assert(enc_fs_entries(v.push(e)) =~= enc_fs_entries(v) + (enc_path(e.0) + enc_node(e.1)));
    }
}

/// The byte encoding of a whole tree: the entry count, then the entries.
pub open spec fn enc_fs(v: Seq<(Seq<Seq<char>>, NodeView)>) -> Seq<u8> {
    u64_le_seq(v.len() as u64) + enc_fs_entries(v)
}

/// What decoding one byte at `pos` yields.
pub open spec fn dec_u8_spec(b: Seq<u8>, pos: int) -> Option<(u8, int)> {
    if 0 <= pos < b.len() {
        Some((b[pos], pos + 1))
    } else {
        None
    }
}

/// What decoding `n` consecutive segments at `pos` yields.
pub open spec fn dec_segs_spec(b: Seq<u8>, pos: int, n: nat) -> Option<(Seq<Seq<char>>, int)>
    decreases n,
{
    if n == 0 {
        Some((Seq::empty(), pos))
    } else {
        match dec_str_spec(b, pos) {
            None => None,
            Some((t, p)) => match dec_segs_spec(b, p, (n - 1) as nat) {
                None => None,
                Some((rest, p2)) => Some((seq![t] + rest, p2)),
            },
        }
    }
}

/// What decoding a path at `pos` yields.
pub open spec fn dec_path_spec(b: Seq<u8>, pos: int) -> Option<(Seq<Seq<char>>, int)> {
    match dec_u64_spec(b, pos) {
        None => None,
        Some((n, p)) => dec_segs_spec(b, p, n as nat),
    }
}

/// What decoding a node at `pos` yields.
pub open spec fn dec_node_spec(b: Seq<u8>, pos: int) -> Option<(NodeView, int)> {
    match dec_u8_spec(b, pos) {
        None => None,
        Some((tag, p)) => if tag == 0 {
            match dec_i64_spec(b, p) {
                None => None,
                Some((mtime, p1)) => match dec_bytes_spec(b, p1) {
                    None => None,
                    Some((content, p2)) => Some((NodeView::File { content, mtime }, p2)),
                },
            }
        } else if tag == 1 {
            match dec_i64_spec(b, p) {
                None => None,
                Some((mtime, p1)) => Some((NodeView::Dir { mtime }, p1)),
            }
        } else {
            None
        },
    }
}

/// What decoding `n` consecutive entries at `pos` yields.
pub open spec fn dec_fs_entries_spec(b: Seq<u8>, pos: int, n: nat) -> Option<
    (Seq<(Seq<Seq<char>>, NodeView)>, int),
>
    decreases n,
{
    if n == 0 {
        Some((Seq::empty(), pos))
    } else {
        match dec_path_spec(b, pos) {
            None => None,
            Some((p, p1)) => match dec_node_spec(b, p1) {
                None => None,
                Some((nv, p2)) => match dec_fs_entries_spec(b, p2, (n - 1) as nat) {
                    None => None,
                    Some((rest, p3)) => Some((seq![(p, nv)] + rest, p3)),
                },
            },
        }
    }
}

/// What decoding a whole tree block yields.
pub open spec fn dec_fs_spec(b: Seq<u8>) -> Option<Seq<(Seq<Seq<char>>, NodeView)>> {
    match dec_u64_spec(b, 0) {
        None => None,
        Some((n, p)) => match dec_fs_entries_spec(b, p, n as nat) {
            None => None,
            Some((v, p2)) => if p2 == b.len() {
                Some(v)
            } else {
                None
            },
        },
    }
}

/// Whether every piece of the tree fits its length frames.
pub open spec fn fs_sized(v: Seq<(Seq<Seq<char>>, NodeView)>) -> bool {
    forall|i: int|
        0 <= i < v.len() ==> {
            let e = #[trigger] v[i];
            &&& e.0.len() <= u64::MAX
            &&& (forall|k: int| 0 <= k < e.0.len() ==> vstd::utf8::encode_utf8(#[trigger] e.0[k]).len()
                <= u64::MAX)
            &&& (e.1 matches NodeView::File { content, .. } ==> content.len() <= u64::MAX)
        }
}

/// If `b` carries `enc_segs(p)` at `pos`, decoding `p.len()` segments
/// yields `p` back.
pub proof fn lemma_dec_segs_round_trip(b: Seq<u8>, pos: int, p: Seq<Seq<char>>)
    requires
        0 <= pos,
        pos + enc_segs(p).len() <= b.len(),
        b.subrange(pos, pos + enc_segs(p).len()) == enc_segs(p),
        forall|k: int| 0 <= k < p.len() ==> vstd::utf8::encode_utf8(#[trigger] p[k]).len()
            <= u64::MAX,
    ensures
        dec_segs_spec(b, pos, p.len()) == Some((p, pos + enc_segs(p).len())),
    decreases p.len(),
{
    if p.len() == 0 {
        assert(p =~= Seq::<Seq<char>>::empty());
    } else {
        let t = p[0];
        let rest = p.drop_first();
        let et = enc_str(t);
        let er = enc_segs(rest);
        assert(enc_segs(p) == et + er);
        assert(b.subrange(pos, pos + et.len() as int) =~= enc_segs(p).subrange(0, et.len() as int));
        assert(enc_segs(p).subrange(0, et.len() as int) =~= et);
        lemma_dec_str_round_trip(b, pos, t);
        let p1 = pos + et.len() as int;
        assert(b.subrange(p1, p1 + er.len() as int) =~= enc_segs(p).subrange(
            et.len() as int,
            enc_segs(p).len() as int,
        ));
        assert(enc_segs(p).subrange(et.len() as int, enc_segs(p).len() as int) =~= er);
        assert(forall|k: int| 1 <= k < p.len() ==> #[trigger] p[k] == rest[k - 1]);
        lemma_dec_segs_round_trip(b, p1, rest);
        assert(seq![t] + rest =~= p);
    }
}

/// If `b` carries `enc_path(p)` at `pos`, decoding yields `p` back.
pub proof fn lemma_dec_path_round_trip(b: Seq<u8>, pos: int, p: Seq<Seq<char>>)
    requires
        0 <= pos,
        pos + enc_path(p).len() <= b.len(),
        b.subrange(pos, pos + enc_path(p).len()) == enc_path(p),
        p.len() <= u64::MAX,
        forall|k: int| 0 <= k < p.len() ==> vstd::utf8::encode_utf8(#[trigger] p[k]).len()
            <= u64::MAX,
    ensures
        dec_path_spec(b, pos) == Some((p, pos + enc_path(p).len())),
{
    let whole = enc_path(p);
    assert(b.subrange(pos, pos + 8) =~= whole.subrange(0, 8));
    assert(whole.subrange(0, 8) =~= u64_le_seq(p.len() as u64));
    lemma_u64_le_round_trip(p.len() as u64);
    let p1 = pos + 8;
    assert(b.subrange(p1, p1 + enc_segs(p).len() as int) =~= whole.subrange(
        8,
        whole.len() as int,
    ));
    assert(whole.subrange(8, whole.len() as int) =~= enc_segs(p));
    lemma_dec_segs_round_trip(b, p1, p);
}

/// If `b` carries `enc_node(n)` at `pos`, decoding yields `n` back.
pub proof fn lemma_dec_node_round_trip(b: Seq<u8>, pos: int, n: NodeView)
    requires
        0 <= pos,
        pos + enc_node(n).len() <= b.len(),
        b.subrange(pos, pos + enc_node(n).len()) == enc_node(n),
        n matches NodeView::File { content, .. } ==> content.len() <= u64::MAX,
    ensures
        dec_node_spec(b, pos) == Some((n, pos + enc_node(n).len())),
{
    let whole = enc_node(n);
    assert(b.subrange(pos, pos + whole.len() as int) == whole);
    assert(b[pos] == whole[0]);
    match n {
        NodeView::File { content, mtime } => {
            assert(whole[0] == 0u8);
            assert(b.subrange(pos + 1, pos + 9) =~= whole.subrange(1, 9));
            assert(whole.subrange(1, 9) =~= enc_i64(mtime));
            lemma_dec_i64_round_trip(b, pos + 1, mtime);
            assert(b.subrange(pos + 9, pos + whole.len() as int) =~= whole.subrange(
                9,
                whole.len() as int,
            ));
            assert(whole.subrange(9, whole.len() as int) =~= enc_bytes(content));
            lemma_dec_bytes_round_trip(b, pos + 9, content);
        },
        NodeView::Dir { mtime } => {
            assert(whole[0] == 1u8);
            assert(b.subrange(pos + 1, pos + 9) =~= whole.subrange(1, 9));
            assert(whole.subrange(1, 9) =~= enc_i64(mtime));
            lemma_dec_i64_round_trip(b, pos + 1, mtime);
        },
    }
}

/// If `b` carries `enc_fs_entries(v)` at `pos`, decoding `v.len()` entries
/// yields `v` back.
#[verifier::rlimit(100)]
pub proof fn lemma_dec_fs_entries_round_trip(b: Seq<u8>, pos: int, v: Seq<(Seq<Seq<char>>, NodeView)>)
    requires
        0 <= pos,
        pos + enc_fs_entries(v).len() <= b.len(),
        b.subrange(pos, pos + enc_fs_entries(v).len()) == enc_fs_entries(v),
        fs_sized(v),
    ensures
        dec_fs_entries_spec(b, pos, v.len()) == Some((v, pos + enc_fs_entries(v).len())),
    decreases v.len(),
{
    if v.len() == 0 {
        assert(v =~= Seq::<(Seq<Seq<char>>, NodeView)>::empty());
    } else {
        let e = v[0];
        let rest = v.drop_first();
        let ep = enc_path(e.0);
        let en = enc_node(e.1);
        let er = enc_fs_entries(rest);
        assert(enc_fs_entries(v) == ep + en + er);
        assert(b.subrange(pos, pos + ep.len() as int) =~= enc_fs_entries(v).subrange(
            0,
            ep.len() as int,
        ));
        assert(enc_fs_entries(v).subrange(0, ep.len() as int) =~= ep);
        lemma_dec_path_round_trip(b, pos, e.0);
        let p1 = pos + ep.len() as int;
        assert(b.subrange(p1, p1 + en.len() as int) =~= enc_fs_entries(v).subrange(
            ep.len() as int,
            ep.len() as int + en.len() as int,
        ));
        assert(enc_fs_entries(v).subrange(ep.len() as int, ep.len() as int + en.len() as int)
            =~= en);
        lemma_dec_node_round_trip(b, p1, e.1);
        let p2 = p1 + en.len() as int;
        assert(b.subrange(p2, p2 + er.len() as int) =~= enc_fs_entries(v).subrange(
            ep.len() as int + en.len() as int,
            enc_fs_entries(v).len() as int,
        ));
        assert(enc_fs_entries(v).subrange(
            ep.len() as int + en.len() as int,
            enc_fs_entries(v).len() as int,
        ) =~= er);
        assert(forall|k: int| 1 <= k < v.len() ==> #[trigger] v[k] == rest[k - 1]);
        lemma_dec_fs_entries_round_trip(b, p2, rest);
        assert(seq![e] + rest =~= v);
    }
}

/// Decoding the encoding of a tree yields the tree back.
pub proof fn lemma_dec_fs_round_trip(v: Seq<(Seq<Seq<char>>, NodeView)>)
    requires
        v.len() <= u64::MAX,
        fs_sized(v),
    ensures
        dec_fs_spec(enc_fs(v)) == Some(v),
{
    let b = enc_fs(v);
    assert(b.subrange(0, 8) =~= u64_le_seq(v.len() as u64));
    lemma_u64_le_round_trip(v.len() as u64);
    assert(b.subrange(8, b.len() as int) =~= enc_fs_entries(v));
    lemma_dec_fs_entries_round_trip(b, 8, v);
}

// ---------------------------------------------------------------------------
// laws of the operations
// ---------------------------------------------------------------------------

/// Round trip: reading a path right after writing it returns the written
/// payload.
pub proof fn lemma_write_read_round_trip(
    d0: PrivateDirectory,
    d1: PrivateDirectory,
    p: Seq<Seq<char>>,
    content: Seq<u8>,
    mtime: i64,
    now: i64,
)
    requires
        write_post(d0, d1, p, content, mtime, now),
    ensures
        file_content(d1.lookup(p)) == Some(content),
{
}

/// Last write wins: writing one path twice leaves exactly the later content.
pub proof fn lemma_last_write_wins(
    d0: PrivateDirectory,
    d1: PrivateDirectory,
    d2: PrivateDirectory,
    p: Seq<Seq<char>>,
    c1: Seq<u8>,
    c2: Seq<u8>,
    m1: i64,
    m2: i64,
    n1: i64,
    n2: i64,
)
    requires
        write_post(d0, d1, p, c1, m1, n1),
        write_post(d1, d2, p, c2, m2, n2),
    ensures
        file_content(d2.lookup(p)) == Some(c2),
        c1 != c2 ==> file_content(d2.lookup(p)) != Some(c1),
{
}

/// A directory created under a childless parent is that parent's only
/// child, and it is a directory.
pub proof fn lemma_mkdir_single_child(
    d0: PrivateDirectory,
    d1: PrivateDirectory,
    p: Seq<Seq<char>>,
    now: i64,
)
    requires
        mkdir_post(d0, d1, p, now),
        p.len() >= 1,
        d0.lookup(p) is None,
        forall|name: Seq<char>| #[trigger] d0.lookup(p.subrange(0, p.len() - 1).push(name)) is None,
    ensures
        d1.lookup(p) == Some(NodeView::Dir { mtime: now }),
        forall|name: Seq<char>|
            (#[trigger] d1.lookup(p.subrange(0, p.len() - 1).push(name))) is Some <==> name
                == p.last(),
{
    let parent = p.subrange(0, p.len() - 1);
    assert(parent.push(p.last()) =~= p);
    assert forall|name: Seq<char>|
        (#[trigger] d1.lookup(parent.push(name))) is Some <==> name == p.last() by {
        let q = parent.push(name);
        if name == p.last() {
            assert(q == p);
        } else {
            assert(q != p);
            assert(q.len() == p.len());
            assert(!proper_prefix(q, p));
            assert(d1.lookup(q) == d0.lookup(q));
        }
    }
}

/// A move carries the source's content to the destination and removes the
/// source.
pub proof fn lemma_mv_moves_content(
    d0: PrivateDirectory,
    d1: PrivateDirectory,
    src: Seq<Seq<char>>,
    dst: Seq<Seq<char>>,
    now: i64,
)
    requires
        mv_post(d0, d1, src, dst, now),
        !is_prefix(dst, src),
    ensures
        d1.lookup(dst) == d0.lookup(src),
        d1.lookup(src) is None,
{
    assert(dst.subrange(0, dst.len() as int) =~= dst);
    assert(is_prefix(dst, dst));
    assert(dst.skip(dst.len() as int) =~= Seq::<Seq<char>>::empty());
    assert(src + dst.skip(dst.len() as int) =~= src);
    assert(src.subrange(0, src.len() as int) =~= src);
    assert(is_prefix(src, src));
}

/// Copy independence: overwriting the copy leaves the source as it was.
pub proof fn lemma_cp_independent(
    d0: PrivateDirectory,
    d1: PrivateDirectory,
    d2: PrivateDirectory,
    src: Seq<Seq<char>>,
    dst: Seq<Seq<char>>,
    c2: Seq<u8>,
    m2: i64,
    n2: i64,
    now: i64,
)
    requires
        cp_post(d0, d1, src, dst, now),
        write_post(d1, d2, dst, c2, m2, n2),
        !is_prefix(dst, src),
        d0.lookup(src) is Some,
    ensures
        d2.lookup(src) == d0.lookup(src),
{
    if src == dst {
        assert(src.subrange(0, src.len() as int) =~= src);
        assert(is_prefix(dst, src));
        assert(false);
    }
    assert(!proper_prefix(src, dst) || d0.lookup(src) is Some);
    assert(d1.lookup(src) == d0.lookup(src));
    assert(d2.lookup(src) == d1.lookup(src));
}

} // verus!