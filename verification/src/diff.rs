//! The delta between two directory trees.
//!
//! A `DirDiff` lists, per relative path of the new tree, either a directory
//! marker or a file entry whose state says how to obtain the new content:
//! unchanged, a full payload, or a binary patch against the old content.

use vstd::prelude::*;

use crate::bytes::bytes_eq;
use crate::bytes::clone_bytes;
use crate::hashing::{content_hash, rapid_hash_of};
use crate::patching::{make_patch, patch_apply_of, patch_of};
use crate::tree::{NodeModel, Tree, TreeEntry, TreeEntryModel, check_normalized, file_bytes_at,
    is_normalized_path, lemma_unique_index, paths_unique, tree_wf};

verus! {

/// Per-file mode bits carried by a diff entry (POSIX executable bit).
#[derive(Debug, PartialEq, Eq)]
pub struct FileFlags {
    pub executable: bool,
}

/// How the new content of a file is obtained.
#[derive(Debug, PartialEq, Eq)]
pub enum DataState {
    /// The old content is already the new content.
    Identical,
    /// A binary patch from the old content to the new content.
    Patch(Vec<u8>),
    /// The full new content; used when no old content was available.
    Raw(Vec<u8>),
}

/// One entry of a directory delta.
#[derive(Debug, PartialEq, Eq)]
pub enum DirDiffEntry {
    /// A regular file at this relative path.
    File { path: Vec<u8>, state: DataState, flags: Option<FileFlags> },
    /// A directory that should exist at this relative path.
    Dir(Vec<u8>),
}

/// A delta between two directory trees.
#[derive(Debug, PartialEq, Eq)]
pub struct DirDiff {
    pub entries: Vec<DirDiffEntry>,
}

/// The mathematical form of a file state.
pub enum StateModel {
    Identical,
    Patch(Seq<u8>),
    Raw(Seq<u8>),
}

/// The mathematical form of one diff entry.
pub enum DiffEntryModel {
    File { path: Seq<u8>, state: StateModel, flags: Option<bool> },
    Dir { path: Seq<u8> },
}

impl View for DataState {
    type V = StateModel;

    open spec fn view(&self) -> StateModel {
        match self {
            DataState::Identical => StateModel::Identical,
            DataState::Patch(p) => StateModel::Patch(p@),
            DataState::Raw(d) => StateModel::Raw(d@),
        }
    }
}

impl View for DirDiffEntry {
    type V = DiffEntryModel;

    open spec fn view(&self) -> DiffEntryModel {
        match self {
            DirDiffEntry::File { path, state, flags } => DiffEntryModel::File {
                path: path@,
                state: state@,
                flags: match flags {
                    Option::None => Option::None,
                    Option::Some(f) => Option::Some(f.executable),
                },
            },
            DirDiffEntry::Dir(path) => DiffEntryModel::Dir { path: path@ },
        }
    }
}

impl View for DirDiff {
    type V = Seq<DiffEntryModel>;

    open spec fn view(&self) -> Seq<DiffEntryModel> {
        self.entries@.map_values(|e: DirDiffEntry| e@)
    }
}

impl DiffEntryModel {
    /// The relative path of this entry.
    pub open spec fn path(self) -> Seq<u8> {
        match self {
            DiffEntryModel::File { path, .. } => path,
            DiffEntryModel::Dir { path } => path,
        }
    }

    /// Is this a directory marker?
    pub open spec fn is_dir_entry(self) -> bool {
        self is Dir
    }
}

impl DirDiffEntry {
    /// Borrow the relative path of this entry.
    pub fn path(&self) -> (r: &Vec<u8>)
        ensures
            r@ == self@.path(),
    {
        match self {
            DirDiffEntry::File { path, .. } => path,
            DirDiffEntry::Dir(path) => path,
        }
    }

    /// Is this a directory marker?
    pub fn is_dir_entry(&self) -> (r: bool)
        ensures
            r == self@.is_dir_entry(),
    {
        match self {
            DirDiffEntry::File { .. } => false,
            DirDiffEntry::Dir(_) => true,
        }
    }
}

/// The flags record a diff entry's `flags` field stands for.
pub open spec fn flags_view(f: Option<FileFlags>) -> Option<bool> {
    match f {
        Option::None => Option::None,
        Option::Some(ff) => Option::Some(ff.executable),
    }
}

/// A well-formed delta: every path normalized, and no two entries of the
/// same kind share a path.
pub open spec fn diff_wf(s: Seq<DiffEntryModel>) -> bool {
    &&& forall|i: int| 0 <= i < s.len() ==> is_normalized_path(#[trigger] s[i].path())
    &&& forall|i: int, j: int|
        0 <= i < j < s.len() && #[trigger] s[i].is_dir_entry() == #[trigger] s[j].is_dir_entry()
            ==> s[i].path() != s[j].path()
}

/// The diff entry produced for one entry of the new tree: directories are
/// marked, files carry the state the decision table picks — identical on a
/// content-hash match, the raw new bytes when no old content was there, a
/// binary patch otherwise — and the new file's executable bit.
pub open spec fn build_entry(old: Seq<TreeEntryModel>, e: TreeEntryModel) -> DiffEntryModel {
    match e.node {
        NodeModel::Dir => DiffEntryModel::Dir { path: e.path },
        NodeModel::File { data, executable } => DiffEntryModel::File {
            path: e.path,
            state: {
                let old_b = file_bytes_at(old, e.path);
                if rapid_hash_of(data) == rapid_hash_of(old_b) {
                    StateModel::Identical
                } else if old_b.len() == 0 {
                    StateModel::Raw(data)
                } else {
                    StateModel::Patch(patch_of(old_b, data))
                }
            },
            flags: Option::Some(executable),
        },
    }
}

/// The first `n` file entries' patches apply back onto the old content:
/// what `make_patch` promised at build time, carried in the builder's
/// contract so the round-trip theorem can use it.
pub open spec fn patch_entries_apply(
    old: Seq<TreeEntryModel>,
    new: Seq<TreeEntryModel>,
    n: int,
) -> bool {
    forall|t: int|
        0 <= t < n && t < new.len() && (#[trigger] new[t].node) is File ==> {
            let d = new[t].node->File_data;
            let ob = file_bytes_at(old, new[t].path);
            rapid_hash_of(d) != rapid_hash_of(ob) && ob.len() > 0 ==> patch_apply_of(
                patch_of(ob, d),
                ob,
            ) == Option::Some(d)
        }
}

/// The delta built from `old` to `new`: one entry per entry of `new`, in
/// the new tree's order.
pub open spec fn spec_build(
    old: Seq<TreeEntryModel>,
    new: Seq<TreeEntryModel>,
) -> Seq<DiffEntryModel> {
    new.map_values(|e: TreeEntryModel| build_entry(old, e))
}

impl DirDiff {
    /// Build the delta between two trees.
    ///
    /// Per entry of the new tree: a directory yields a directory marker; a
    /// file whose content hash equals the hash of the old content at the
    /// same path yields an identical marker; one with empty or absent old
    /// content yields its raw bytes; any other file yields a binary patch
    /// from the old content.  Flags carry the new file's executable bit.
    pub fn new(old_dir: &Tree, new_dir: &Tree) -> (r: DirDiff)
        requires
            paths_unique(old_dir@),
        ensures
            r@ == spec_build(old_dir@, new_dir@),
            patch_entries_apply(old_dir@, new_dir@, new_dir@.len() as int),
            tree_wf(new_dir@) ==> diff_wf(r@),
    {
        let mut entries: Vec<DirDiffEntry> = Vec::new();
        let mut i: usize = 0;
        proof {
            assert(entries@.map_values(|e: DirDiffEntry| e@) =~= spec_build(
                old_dir@,
                new_dir@.take(0),
            ));
        }
        while i < new_dir.entries.len()
            invariant
                0 <= i <= new_dir.entries@.len(),
                new_dir@.len() == new_dir.entries@.len(),
                paths_unique(old_dir@),
                entries@.map_values(|e: DirDiffEntry| e@) == spec_build(
                    old_dir@,
                    new_dir@.take(i as int),
                ),
                patch_entries_apply(old_dir@, new_dir@, i as int),
            decreases new_dir.entries@.len() - i,
        {
            let ghost done = entries@.map_values(|e: DirDiffEntry| e@);
            proof {
                assert(new_dir@[i as int] == new_dir.entries@[i as int]@);
            }
            match &new_dir.entries[i] {
                TreeEntry::Dir { path } => {
                    entries.push(DirDiffEntry::Dir(clone_bytes(path)));
                    proof {
                        assert(patch_entries_apply(old_dir@, new_dir@, i + 1));
                    }
                },
                TreeEntry::File { path, data, executable } => {
                    let old_b: Vec<u8> = match old_dir.lookup(path.as_slice()) {
                        Option::Some(j) => {
                            proof {
                                lemma_unique_index(old_dir@, j as int, path@);
                            }
                            match &old_dir.entries[j] {
                                TreeEntry::File { data: od, .. } => {
                                    proof {
                                        assert(old_dir@[j as int] == old_dir.entries@[j as int]@);
                                    }
                                    clone_bytes(od)
                                },
                                TreeEntry::Dir { .. } => {
                                    proof {
                                        assert(old_dir@[j as int] == old_dir.entries@[j as int]@);
                                    }
                                    Vec::new()
                                },
                            }
                        },
                        Option::None => Vec::new(),
                    };
                    proof {
                        assert(old_b@ == file_bytes_at(old_dir@, path@));
                        assert(old_b@ =~= file_bytes_at(old_dir@, path@));
                    }
                    let hash_new = content_hash(data.as_slice());
                    let hash_old = content_hash(old_b.as_slice());
                    let state = if hash_new == hash_old {
                        DataState::Identical
                    } else if old_b.len() == 0 {
                        DataState::Raw(clone_bytes(data))
                    } else {
                        DataState::Patch(make_patch(&old_b, data))
                    };
                    entries.push(
                        DirDiffEntry::File {
                            path: clone_bytes(path),
                            state,
                            flags: Option::Some(FileFlags { executable: *executable }),
                        },
                    );
                    proof {
                        assert(patch_entries_apply(old_dir@, new_dir@, i + 1)) by {
                            assert(forall|t: int|
                                0 <= t < i && t < new_dir@.len() && (#[trigger] new_dir@[t].node) is File ==> {
                                    let d = new_dir@[t].node->File_data;
                                    let ob = file_bytes_at(old_dir@, new_dir@[t].path);
                                    rapid_hash_of(d) != rapid_hash_of(ob) && ob.len() > 0
                                        ==> patch_apply_of(patch_of(ob, d), ob) == Option::Some(d)
                                });
                        }
                    }
                },
            }
            proof {
                let e = new_dir@[i as int];
                assert(entries@.map_values(|x: DirDiffEntry| x@) =~= done.push(
                    build_entry(old_dir@, e),
                ));
                assert(spec_build(old_dir@, new_dir@.take(i + 1)) =~= done.push(
                    build_entry(old_dir@, e),
                )) by {
                    assert(new_dir@.take(i + 1) =~= new_dir@.take(i as int).push(e));
                }
            }
            i += 1;
        }
        proof {
            assert(new_dir@.take(new_dir@.len() as int) =~= new_dir@);
            if tree_wf(new_dir@) {
                lemma_spec_build_wf(old_dir@, new_dir@);
            }
        }
        DirDiff { entries }
    }
}

/// A delta built from a well-formed new tree is well-formed.
pub proof fn lemma_spec_build_wf(old: Seq<TreeEntryModel>, new: Seq<TreeEntryModel>)
    requires
        tree_wf(new),
    ensures
        diff_wf(spec_build(old, new)),
{
    let d = spec_build(old, new);
    assert forall|i: int| 0 <= i < d.len() implies is_normalized_path(#[trigger] d[i].path()) by {
        assert(d[i] == build_entry(old, new[i]));
        assert(d[i].path() == new[i].path);
    }
    assert forall|i: int, j: int|
        0 <= i < j < d.len() && #[trigger] d[i].is_dir_entry() == #[trigger] d[j].is_dir_entry()
        implies d[i].path() != d[j].path() by {
        assert(d[i] == build_entry(old, new[i]));
        assert(d[j] == build_entry(old, new[j]));
        assert(new[i].path != new[j].path);
    }
}

/// Check the well-formedness of a delta.
pub fn check_diff_wf(entries: &Vec<DirDiffEntry>) -> (r: bool)
    ensures
        r == diff_wf(entries@.map_values(|e: DirDiffEntry| e@)),
{
    let ghost s = entries@.map_values(|e: DirDiffEntry| e@);
    let mut i: usize = 0;
    while i < entries.len()
        invariant
            0 <= i <= entries@.len(),
            s == entries@.map_values(|e: DirDiffEntry| e@),
            forall|k: int| 0 <= k < i ==> is_normalized_path(#[trigger] s[k].path()),
            forall|k: int, j: int|
                0 <= k < j < i && #[trigger] s[k].is_dir_entry() == #[trigger] s[j].is_dir_entry()
                    ==> s[k].path() != s[j].path(),
        decreases entries@.len() - i,
    {
        if !check_normalized(entries[i].path().as_slice()) {
            proof {
                assert(s[i as int] == entries@[i as int]@);
                assert(!is_normalized_path(s[i as int].path()));
            }
            return false;
        }
        let mut j: usize = 0;
        while j < i
            invariant
                0 <= j <= i < entries@.len(),
                s == entries@.map_values(|e: DirDiffEntry| e@),
                forall|k: int|
                    0 <= k < j && #[trigger] s[k].is_dir_entry() == s[i as int].is_dir_entry()
                        ==> s[k].path() != s[i as int].path(),
            decreases i - j,
        {
            if entries[j].is_dir_entry() == entries[i].is_dir_entry() && bytes_eq(
                entries[j].path().as_slice(),
                entries[i].path().as_slice(),
            ) {
                proof {
                    assert(s[j as int] == entries@[j as int]@);
                    assert(s[i as int] == entries@[i as int]@);
                    assert(s[j as int].is_dir_entry() == s[i as int].is_dir_entry() && s[
                        j as int].path() == s[i as int].path());
                }
                return false;
            }
            j += 1;
        }
        i += 1;
    }
    true
}

} // verus!
