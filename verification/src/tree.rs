//! In-memory model of a directory tree.
//!
//! The filesystem work stays outside the library: a directory is handed in
//! as a `Tree`, a list of entries with normalized relative paths (UTF-8
//! bytes, `/`-separated), each either a directory or a regular file with its
//! content and executable bit.  A well-formed tree lists every ancestor
//! directory before the entries under it, once each.

use vstd::prelude::*;

use crate::bytes::bytes_eq;

verus! {

/// Path separator byte.
pub const SLASH: u8 = 47;

/// ASCII dot.
pub const DOT: u8 = 46;

/// One entry of a directory tree.
#[derive(Debug, PartialEq, Eq)]
pub enum TreeEntry {
    /// A directory at this relative path.
    Dir { path: Vec<u8> },
    /// A regular file at this relative path.
    File { path: Vec<u8>, data: Vec<u8>, executable: bool },
}

/// A directory tree as a list of entries.
#[derive(Debug, PartialEq, Eq)]
pub struct Tree {
    pub entries: Vec<TreeEntry>,
}

/// What stands at a path: a directory, or a file with content and mode bit.
pub enum NodeModel {
    Dir,
    File { data: Seq<u8>, executable: bool },
}

/// The mathematical form of one tree entry.
pub struct TreeEntryModel {
    pub path: Seq<u8>,
    pub node: NodeModel,
}

impl View for TreeEntry {
    type V = TreeEntryModel;

    open spec fn view(&self) -> TreeEntryModel {
        match self {
            TreeEntry::Dir { path } => TreeEntryModel { path: path@, node: NodeModel::Dir },
            TreeEntry::File { path, data, executable } => TreeEntryModel {
                path: path@,
                node: NodeModel::File { data: data@, executable: *executable },
            },
        }
    }
}

/// The views of a list of tree entries.
pub open spec fn entry_views(s: Seq<TreeEntry>) -> Seq<TreeEntryModel> {
    s.map_values(|e: TreeEntry| e@)
}

impl View for Tree {
    type V = Seq<TreeEntryModel>;

    open spec fn view(&self) -> Seq<TreeEntryModel> {
        entry_views(self.entries@)
    }
}

impl TreeEntry {
    /// The relative path of this entry.
    pub open spec fn spec_path(&self) -> Seq<u8> {
        self@.path
    }

    /// Borrow the relative path of this entry.
    pub fn path(&self) -> (r: &Vec<u8>)
        ensures
            r@ == self.spec_path(),
    {
        match self {
            TreeEntry::Dir { path } => path,
            TreeEntry::File { path, .. } => path,
        }
    }
}

/// Does a segment begin at position `i`?
pub open spec fn seg_start(p: Seq<u8>, i: int) -> bool {
    i == 0 || p[i - 1] == SLASH
}

/// A `.` segment begins at position `i`.
pub open spec fn dot_seg_at(p: Seq<u8>, i: int) -> bool {
    &&& seg_start(p, i)
    &&& p[i] == DOT
    &&& (i + 1 == p.len() || p[i + 1] == SLASH)
}

/// A `..` segment begins at position `i`.
pub open spec fn dotdot_seg_at(p: Seq<u8>, i: int) -> bool {
    &&& seg_start(p, i)
    &&& p[i] == DOT
    &&& i + 1 < p.len()
    &&& p[i + 1] == DOT
    &&& (i + 2 == p.len() || p[i + 2] == SLASH)
}

/// A relative path in normalized form: non-empty, no leading or trailing or
/// doubled separator, and no `.` or `..` segment.
pub open spec fn is_normalized_path(p: Seq<u8>) -> bool {
    &&& p.len() > 0
    &&& p[0] != SLASH
    &&& p[p.len() - 1] != SLASH
    &&& forall|i: int| 0 <= i < p.len() - 1 ==> !(p[i] == SLASH && #[trigger] p[i + 1] == SLASH)
    &&& forall|i: int| 0 <= i < p.len() ==> !#[trigger] dot_seg_at(p, i)
    &&& forall|i: int| 0 <= i < p.len() ==> !#[trigger] dotdot_seg_at(p, i)
}

/// Check that a path is in normalized form.
pub fn check_normalized(p: &[u8]) -> (r: bool)
    ensures
        r == is_normalized_path(p@),
{
    if p.len() == 0 {
        return false;
    }
    if p[0] == SLASH {
        return false;
    }
    if p[p.len() - 1] == SLASH {
        return false;
    }
    let mut i: usize = 0;
    while i < p.len()
        invariant
            0 <= i <= p@.len(),
            p@.len() > 0,
            forall|j: int|
                0 <= j < i && j < p@.len() - 1 ==> !(p@[j] == SLASH && #[trigger] p@[j + 1]
                    == SLASH),
            forall|j: int| 0 <= j < i ==> !#[trigger] dot_seg_at(p@, j),
            forall|j: int| 0 <= j < i ==> !#[trigger] dotdot_seg_at(p@, j),
        decreases p@.len() - i,
    {
        if i + 1 < p.len() && p[i] == SLASH && p[i + 1] == SLASH {
            return false;
        }
        let at_seg_start = i == 0 || p[i - 1] == SLASH;
        if at_seg_start && p[i] == DOT {
            if i + 1 == p.len() || p[i + 1] == SLASH {
                proof {
                    assert(dot_seg_at(p@, i as int));
                }
                return false;
            }
            if p[i + 1] == DOT && (i + 2 == p.len() || p[i + 2] == SLASH) {
                proof {
                    assert(dotdot_seg_at(p@, i as int));
                }
                return false;
            }
        }
        i += 1;
    }
    true
}

/// Is `child` strictly below the directory path `anc`?
pub open spec fn is_strictly_under(child: Seq<u8>, anc: Seq<u8>) -> bool {
    &&& anc.len() < child.len()
    &&& child.subrange(0, anc.len() as int) == anc
    &&& child[anc.len() as int] == SLASH
}

/// Check whether `child` lies strictly below `anc`.
pub fn path_strictly_under(child: &[u8], anc: &[u8]) -> (r: bool)
    ensures
        r == is_strictly_under(child@, anc@),
{
    if anc.len() >= child.len() {
        return false;
    }
    if child[anc.len()] != SLASH {
        return false;
    }
    let mut i: usize = 0;
    while i < anc.len()
        invariant
            0 <= i <= anc@.len(),
            anc@.len() < child@.len(),
            forall|j: int| 0 <= j < i ==> child@[j] == anc@[j],
        decreases anc@.len() - i,
    {
        if child[i] != anc[i] {
            return false;
        }
        i += 1;
    }
    proof {
        assert(child@.subrange(0, anc@.len() as int) =~= anc@);
    }
    true
}

/// The final path component: everything after the last separator.
pub open spec fn basename_of(p: Seq<u8>) -> Seq<u8>
    decreases p.len(),
{
    if p.len() == 0 {
        p
    } else if p.last() == SLASH {
        Seq::<u8>::empty()
    } else {
        basename_of(p.drop_last()).push(p.last())
    }
}

/// Without a separator in the tail, the basename is that tail.
proof fn lemma_basename_tail(p: Seq<u8>, m: int)
    requires
        0 <= m <= p.len(),
        forall|j: int| m <= j < p.len() ==> p[j] != SLASH,
        m == 0 || p[m - 1] == SLASH,
    ensures
        basename_of(p) == p.subrange(m, p.len() as int),
    decreases p.len(),
{
    if p.len() == 0 {
        assert(p.subrange(0, 0) =~= p);
    } else if m == p.len() {
        assert(p.last() == p[m - 1]);
        assert(p.subrange(m, p.len() as int) =~= Seq::<u8>::empty());
    } else {
        assert(p.last() != SLASH);
        lemma_basename_tail(p.drop_last(), m);
        assert(basename_of(p) == p.drop_last().subrange(m, p.len() - 1).push(p.last()));
        assert(p.drop_last().subrange(m, p.len() - 1).push(p.last()) =~= p.subrange(
            m,
            p.len() as int,
        ));
    }
}

/// The final path component of a byte path.
pub fn basename(p: &[u8]) -> (r: Vec<u8>)
    ensures
        r@ == basename_of(p@),
{
    let mut m: usize = 0;
    let mut i: usize = 0;
    while i < p.len()
        invariant
            0 <= m <= i <= p@.len(),
            m == 0 || p@[m - 1] == SLASH,
            forall|j: int| m <= j < i ==> p@[j] != SLASH,
        decreases p@.len() - i,
    {
        if p[i] == SLASH {
            m = i + 1;
        }
        i += 1;
    }
    proof {
        lemma_basename_tail(p@, m as int);
    }
    crate::codec::copy_range(p, m, p.len())
}

/// Does any entry of the tree carry this path?
pub open spec fn tree_has_path(s: Seq<TreeEntryModel>, p: Seq<u8>) -> bool {
    exists|i: int| 0 <= i < s.len() && #[trigger] s[i].path == p
}

/// The index of an entry with this path.
pub open spec fn tree_index_of(s: Seq<TreeEntryModel>, p: Seq<u8>) -> int {
    choose|i: int| 0 <= i < s.len() && #[trigger] s[i].path == p
}

/// The node at this path.
pub open spec fn tree_node(s: Seq<TreeEntryModel>, p: Seq<u8>) -> NodeModel {
    s[tree_index_of(s, p)].node
}

/// The tree as a map from paths to nodes.
pub open spec fn tree_map(s: Seq<TreeEntryModel>) -> Map<Seq<u8>, NodeModel> {
    Map::new(|p: Seq<u8>| tree_has_path(s, p), |p: Seq<u8>| tree_node(s, p))
}

/// The bytes a reader would obtain for the file at `p`: its content if a
/// regular file stands there, and empty otherwise.
pub open spec fn file_bytes_at(s: Seq<TreeEntryModel>, p: Seq<u8>) -> Seq<u8> {
    if tree_has_path(s, p) && tree_node(s, p) is File {
        tree_node(s, p)->File_data
    } else {
        Seq::<u8>::empty()
    }
}

/// No two entries share a path.
pub open spec fn paths_unique(s: Seq<TreeEntryModel>) -> bool {
    forall|i: int, j: int|
        0 <= i < j < s.len() ==> #[trigger] s[i].path != #[trigger] s[j].path
}

/// Some entry before position `i` is a directory at path `q`.
pub open spec fn has_dir_before(s: Seq<TreeEntryModel>, i: int, q: Seq<u8>) -> bool {
    exists|j: int| 0 <= j < i && #[trigger] s[j].path == q && s[j].node is Dir
}

/// Every ancestor prefix of every entry stands earlier in the list, as a
/// directory — the order any depth-first walk produces.
pub open spec fn parents_first(s: Seq<TreeEntryModel>) -> bool {
    forall|i: int, k: int|
        0 <= i < s.len() && 0 <= k < s[i].path.len() && #[trigger] s[i].path[k] == SLASH
            ==> has_dir_before(s, i, s[i].path.subrange(0, k))
}

/// A well-formed tree: normalized unique paths, ancestors present first.
pub open spec fn tree_wf(s: Seq<TreeEntryModel>) -> bool {
    &&& forall|i: int| 0 <= i < s.len() ==> is_normalized_path(#[trigger] s[i].path)
    &&& paths_unique(s)
    &&& parents_first(s)
}

/// With unique paths, any entry carrying `p` is the one `tree_index_of`
/// picks.
pub proof fn lemma_unique_index(s: Seq<TreeEntryModel>, j: int, p: Seq<u8>)
    requires
        paths_unique(s),
        0 <= j < s.len(),
        s[j].path == p,
    ensures
        tree_has_path(s, p),
        tree_index_of(s, p) == j,
{
    assert(tree_has_path(s, p));
    let c = tree_index_of(s, p);
    if c < j {
        assert(s[c].path != s[j].path);
        assert(false);
    } else if c > j {
        assert(s[j].path != s[c].path);
        assert(false);
    }
}

/// Does `other` equal the first `k` bytes of `full`?
pub fn path_eq_prefix(full: &[u8], k: usize, other: &[u8]) -> (r: bool)
    requires
        k <= full@.len(),
    ensures
        r == (other@ == full@.subrange(0, k as int)),
{
    if other.len() != k {
        return false;
    }
    let mut i: usize = 0;
    while i < k
        invariant
            0 <= i <= k <= full@.len(),
            other@.len() == k,
            forall|j: int| 0 <= j < i ==> other@[j] == full@[j],
        decreases k - i,
    {
        if other[i] != full[i] {
            assert(other@[i as int] != full@.subrange(0, k as int)[i as int]);
            return false;
        }
        i += 1;
    }
    proof {
        assert(other@ =~= full@.subrange(0, k as int));
    }
    true
}

impl TreeEntry {
    /// Is this entry a directory?
    pub fn is_dir(&self) -> (r: bool)
        ensures
            r == (self@.node is Dir),
    {
        match self {
            TreeEntry::Dir { .. } => true,
            TreeEntry::File { .. } => false,
        }
    }
}

impl Tree {
    /// Check that every entry's path is in normalized form.
    fn check_all_normalized(&self) -> (r: bool)
        ensures
            r == forall|i: int| 0 <= i < self@.len() ==> is_normalized_path(#[trigger] self@[i].path),
    {
        let ghost s = self@;
        let mut i: usize = 0;
        while i < self.entries.len()
            invariant
                0 <= i <= s.len(),
                s == self@,
                s.len() == self.entries@.len(),
                forall|a: int| 0 <= a < i ==> is_normalized_path(#[trigger] s[a].path),
            decreases s.len() - i,
        {
            proof {
                assert(s[i as int] == self.entries@[i as int]@);
            }
            if !check_normalized(self.entries[i].path().as_slice()) {
                proof {
                    assert(!is_normalized_path(s[i as int].path));
                }
                return false;
            }
            i += 1;
        }
        true
    }

    /// Check that no two entries share a path.
    fn check_paths_unique(&self) -> (r: bool)
        ensures
            r == paths_unique(self@),
    {
        let ghost s = self@;
        let mut i: usize = 0;
        while i < self.entries.len()
            invariant
                0 <= i <= s.len(),
                s == self@,
                s.len() == self.entries@.len(),
                forall|a: int, b: int|
                    0 <= a < b < i ==> #[trigger] s[a].path != #[trigger] s[b].path,
            decreases s.len() - i,
        {
            let mut j: usize = 0;
            while j < i
                invariant
                    0 <= j <= i < s.len(),
                    s == self@,
                    s.len() == self.entries@.len(),
                    forall|a: int| 0 <= a < j ==> #[trigger] s[a].path != s[i as int].path,
                decreases i - j,
            {
                proof {
                    assert(s[j as int] == self.entries@[j as int]@);
                    assert(s[i as int] == self.entries@[i as int]@);
                }
                if bytes_eq(self.entries[j].path().as_slice(), self.entries[i].path().as_slice()) {
                    proof {
                        assert(s[j as int].path == s[i as int].path);
                        assert(!paths_unique(s));
                    }
                    return false;
                }
                j += 1;
            }
            i += 1;
        }
        true
    }

    /// Check that the ancestor directory of every entry stands before it.
    fn check_parents_first(&self) -> (r: bool)
        ensures
            r == parents_first(self@),
    {
        let ghost s = self@;
        let mut i: usize = 0;
        while i < self.entries.len()
            invariant
                0 <= i <= s.len(),
                s == self@,
                s.len() == self.entries@.len(),
                forall|a: int, k: int|
                    0 <= a < i && 0 <= k < s[a].path.len() && #[trigger] s[a].path[k] == SLASH
                        ==> has_dir_before(s, a, s[a].path.subrange(0, k)),
            decreases s.len() - i,
        {
            proof {
                assert(s[i as int] == self.entries@[i as int]@);
            }
            let pi_len = self.entries[i].path().len();
            let mut k: usize = 0;
            while k < pi_len
                invariant
                    0 <= k <= pi_len,
                    0 <= i < s.len(),
                    s == self@,
                    s.len() == self.entries@.len(),
                    pi_len == s[i as int].path.len(),
                    forall|c: int|
                        0 <= c < k && #[trigger] s[i as int].path[c] == SLASH ==> has_dir_before(
                            s,
                            i as int,
                            s[i as int].path.subrange(0, c),
                        ),
                decreases pi_len - k,
            {
                proof {
                    assert(s[i as int] == self.entries@[i as int]@);
                }
                if self.entries[i].path()[k] == SLASH {
                    if !self.scan_dir_before(i, k) {
                        proof {
                            assert(!parents_first(s));
                        }
                        return false;
                    }
                }
                k += 1;
            }
            i += 1;
        }
        true
    }

    /// Scan the entries before `i` for a directory at the `k`-byte prefix
    /// of entry `i`'s path.
    fn scan_dir_before(&self, i: usize, k: usize) -> (r: bool)
        requires
            i < self@.len(),
            k <= self@[i as int].path.len(),
        ensures
            r == has_dir_before(self@, i as int, self@[i as int].path.subrange(0, k as int)),
    {
        let ghost s = self@;
        let mut j: usize = 0;
        while j < i
            invariant
                0 <= j <= i < s.len(),
                s == self@,
                s.len() == self.entries@.len(),
                k <= s[i as int].path.len(),
                forall|a: int|
                    0 <= a < j ==> !(#[trigger] s[a].path == s[i as int].path.subrange(
                        0,
                        k as int,
                    ) && s[a].node is Dir),
            decreases i - j,
        {
            proof {
                assert(s[j as int] == self.entries@[j as int]@);
                assert(s[i as int] == self.entries@[i as int]@);
            }
            if self.entries[j].is_dir() && path_eq_prefix(
                self.entries[i].path().as_slice(),
                k,
                self.entries[j].path().as_slice(),
            ) {
                proof {
                    assert(s[j as int].path == s[i as int].path.subrange(0, k as int) && s[
                        j as int].node is Dir);
                }
                return true;
            }
            j += 1;
        }
        false
    }

    /// Check the tree's well-formedness: normalized unique paths, and every
    /// ancestor directory listed before what it holds.
    pub fn check_wf(&self) -> (r: bool)
        ensures
            r == tree_wf(self@),
    {
        self.check_all_normalized() && self.check_paths_unique() && self.check_parents_first()
    }

    /// The index of the entry carrying `path`, scanning from the front.
    pub fn lookup(&self, path: &[u8]) -> (r: Option<usize>)
        ensures
            match r {
                Some(i) => i < self@.len() && self@[i as int].path == path@ && tree_has_path(
                    self@,
                    path@,
                ),
                None => !tree_has_path(self@, path@),
            },
    {
        let mut i: usize = 0;
        while i < self.entries.len()
            invariant
                0 <= i <= self@.len(),
                self@.len() == self.entries@.len(),
                forall|j: int| 0 <= j < i ==> self@[j].path != path@,
            decreases self@.len() - i,
        {
            if bytes_eq(self.entries[i].path().as_slice(), path) {
                return Some(i);
            }
            i += 1;
        }
        None
    }
}

} // verus!
