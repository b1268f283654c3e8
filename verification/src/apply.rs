//! Applying a delta to a directory tree.
//!
//! Application runs in two phases, exactly as specified by `spec_apply`:
//! first every entry of the existing tree is reconciled against the delta
//! (consumed, rewritten, or removed under the delete policy), then every
//! delta entry that matched nothing is created — directories and raw
//! files — while a patch or identical entry without a pre-image is
//! reported and skipped.

use vstd::prelude::*;

use crate::bytes::bytes_eq;
use crate::bytes::clone_bytes;
use crate::diff::{DataState, DiffEntryModel, DirDiff, DirDiffEntry, FileFlags, StateModel,
    diff_wf, flags_view};
use crate::patching::{apply_patch, patch_apply_of};
use crate::bytes::byte_views;
use crate::tree::{NodeModel, SLASH, Tree, TreeEntry, TreeEntryModel, entry_views,
    is_strictly_under, lemma_unique_index, path_strictly_under, paths_unique, tree_has_path,
    tree_index_of, tree_node};

verus! {

/// Application failed outright: a patch would not apply, or a created
/// entry could not be placed.
#[derive(Debug, PartialEq, Eq, Structural, Clone, Copy)]
pub enum ApplyError {
    /// A patch entry did not decode against the file found on the tree.
    PatchFailed,
    /// A created directory or file collided with what stands in the tree.
    WriteFailed,
}

/// Is `p` strictly under one of the removed directories?
pub open spec fn under_any(p: Seq<u8>, removed: Seq<Seq<u8>>) -> bool {
    exists|r: int| 0 <= r < removed.len() && is_strictly_under(p, #[trigger] removed[r])
}

/// Does the delta hold a directory marker for `p`?
pub open spec fn diff_has_dir(s: Seq<DiffEntryModel>, p: Seq<u8>) -> bool {
    exists|i: int| 0 <= i < s.len() && (#[trigger] s[i]) is Dir && s[i].path() == p
}

/// The index of the directory marker for `p`.
pub open spec fn diff_dir_index(s: Seq<DiffEntryModel>, p: Seq<u8>) -> int {
    choose|i: int| 0 <= i < s.len() && (#[trigger] s[i]) is Dir && s[i].path() == p
}

/// Does the delta hold a file entry for `p`?
pub open spec fn diff_has_file(s: Seq<DiffEntryModel>, p: Seq<u8>) -> bool {
    exists|i: int| 0 <= i < s.len() && (#[trigger] s[i]) is File && s[i].path() == p
}

/// The index of the file entry for `p`.
pub open spec fn diff_file_index(s: Seq<DiffEntryModel>, p: Seq<u8>) -> int {
    choose|i: int| 0 <= i < s.len() && (#[trigger] s[i]) is File && s[i].path() == p
}

/// In a well-formed delta, a directory marker at `p` stands at the index
/// `diff_dir_index` picks.
pub proof fn lemma_diff_dir_unique(s: Seq<DiffEntryModel>, j: int, p: Seq<u8>)
    requires
        diff_wf(s),
        0 <= j < s.len(),
        s[j] is Dir,
        s[j].path() == p,
    ensures
        diff_has_dir(s, p),
        diff_dir_index(s, p) == j,
{
    assert(diff_has_dir(s, p));
    let c = diff_dir_index(s, p);
    if c < j {
        assert(s[c].is_dir_entry() == s[j].is_dir_entry());
        assert(false);
    } else if c > j {
        assert(s[j].is_dir_entry() == s[c].is_dir_entry());
        assert(false);
    }
}

/// In a well-formed delta, a file entry at `p` stands at the index
/// `diff_file_index` picks.
pub proof fn lemma_diff_file_unique(s: Seq<DiffEntryModel>, j: int, p: Seq<u8>)
    requires
        diff_wf(s),
        0 <= j < s.len(),
        s[j] is File,
        s[j].path() == p,
    ensures
        diff_has_file(s, p),
        diff_file_index(s, p) == j,
{
    assert(diff_has_file(s, p));
    let c = diff_file_index(s, p);
    if c < j {
        assert(s[c].is_dir_entry() == s[j].is_dir_entry());
        assert(false);
    } else if c > j {
        assert(s[j].is_dir_entry() == s[c].is_dir_entry());
        assert(false);
    }
}

/// Running state of the reconcile phase.
pub struct Phase1 {
    pub out: Seq<TreeEntryModel>,
    pub used: Seq<bool>,
    pub removed: Seq<Seq<u8>>,
    pub failed: bool,
}

/// The reconcile phase before any entry is visited.
pub open spec fn phase1_init(n: nat) -> Phase1 {
    Phase1 {
        out: Seq::<TreeEntryModel>::empty(),
        used: Seq::new(n, |i: int| false),
        removed: Seq::<Seq<u8>>::empty(),
        failed: false,
    }
}

/// Reconcile one existing entry against the delta.
pub open spec fn phase1_step(
    diff: Seq<DiffEntryModel>,
    delete_old: bool,
    st: Phase1,
    e: TreeEntryModel,
) -> Phase1 {
    if st.failed {
        st
    } else if under_any(e.path, st.removed) {
        // gone with a removed directory; never visited on disk
        st
    } else {
        match e.node {
            NodeModel::Dir => {
                if diff_has_dir(diff, e.path) {
                    Phase1 {
                        out: st.out.push(e),
                        used: st.used.update(diff_dir_index(diff, e.path), true),
                        ..st
                    }
                } else if delete_old {
                    Phase1 { removed: st.removed.push(e.path), ..st }
                } else {
                    Phase1 { out: st.out.push(e), ..st }
                }
            },
            NodeModel::File { data, executable } => {
                if diff_has_file(diff, e.path) {
                    let idx = diff_file_index(diff, e.path);
                    let used2 = st.used.update(idx, true);
                    match diff[idx] {
                        DiffEntryModel::File { path: _, state, flags } => {
                            let new_exec = match flags {
                                Option::Some(x) => x,
                                Option::None => executable,
                            };
                            match state {
                                StateModel::Identical => Phase1 {
                                    out: st.out.push(
                                        TreeEntryModel {
                                            path: e.path,
                                            node: NodeModel::File { data, executable: new_exec },
                                        },
                                    ),
                                    used: used2,
                                    ..st
                                },
                                StateModel::Raw(b) => Phase1 {
                                    out: st.out.push(
                                        TreeEntryModel {
                                            path: e.path,
                                            node: NodeModel::File {
                                                data: b,
                                                executable: new_exec,
                                            },
                                        },
                                    ),
                                    used: used2,
                                    ..st
                                },
                                StateModel::Patch(q) => match patch_apply_of(q, data) {
                                    Option::Some(nb) => Phase1 {
                                        out: st.out.push(
                                            TreeEntryModel {
                                                path: e.path,
                                                node: NodeModel::File {
                                                    data: nb,
                                                    executable: new_exec,
                                                },
                                            },
                                        ),
                                        used: used2,
                                        ..st
                                    },
                                    Option::None => Phase1 { used: used2, failed: true, ..st },
                                },
                            }
                        },
                        DiffEntryModel::Dir { .. } => st,
                    }
                } else if delete_old {
                    st
                } else {
                    Phase1 { out: st.out.push(e), ..st }
                }
            },
        }
    }
}

/// Reconcile a run of existing entries, first to last.
pub open spec fn phase1_run(
    diff: Seq<DiffEntryModel>,
    delete_old: bool,
    st: Phase1,
    target: Seq<TreeEntryModel>,
) -> Phase1
    decreases target.len(),
{
    if target.len() == 0 {
        st
    } else {
        phase1_run(
            diff,
            delete_old,
            phase1_step(diff, delete_old, st, target.first()),
            target.drop_first(),
        )
    }
}

/// Once the reconcile phase has failed it stays failed.
pub proof fn lemma_phase1_failed_sticky(
    diff: Seq<DiffEntryModel>,
    delete_old: bool,
    st: Phase1,
    target: Seq<TreeEntryModel>,
)
    requires
        st.failed,
    ensures
        phase1_run(diff, delete_old, st, target).failed,
    decreases target.len(),
{
    if target.len() != 0 {
        lemma_phase1_failed_sticky(diff, delete_old, st, target.drop_first());
    }
}

/// Running state of the create phase.
pub struct Phase2 {
    pub out: Seq<TreeEntryModel>,
    pub errors: Seq<Seq<u8>>,
    pub failed: bool,
}

/// Require `q` to be a directory of `out`, adding it if absent.
pub open spec fn ensure_dir(out: Seq<TreeEntryModel>, q: Seq<u8>) -> Option<Seq<TreeEntryModel>> {
    if tree_has_path(out, q) {
        if tree_node(out, q) is Dir {
            Option::Some(out)
        } else {
            Option::None
        }
    } else {
        Option::Some(out.push(TreeEntryModel { path: q, node: NodeModel::Dir }))
    }
}

/// Create the component prefixes of `p` up to length `k`, shortest first.
pub open spec fn mkdir_upto(out: Seq<TreeEntryModel>, p: Seq<u8>, k: int) -> Option<
    Seq<TreeEntryModel>,
>
    decreases k,
{
    if k <= 0 {
        Option::Some(out)
    } else {
        match mkdir_upto(out, p, k - 1) {
            Option::None => Option::None,
            Option::Some(cur) => {
                if k == p.len() || (k < p.len() && p[k] == SLASH) {
                    ensure_dir(cur, p.subrange(0, k))
                } else {
                    Option::Some(cur)
                }
            },
        }
    }
}

/// Create the directory `p` and its missing ancestors; fail if any of them
/// stands in the tree as a file.
pub open spec fn spec_mkdir_all(out: Seq<TreeEntryModel>, p: Seq<u8>) -> Option<
    Seq<TreeEntryModel>,
> {
    mkdir_upto(out, p, p.len() as int)
}

/// Every ancestor prefix of `p` is a directory of `out`.
pub open spec fn parents_present(out: Seq<TreeEntryModel>, p: Seq<u8>) -> bool {
    forall|k: int|
        0 <= k < p.len() && #[trigger] p[k] == SLASH ==> tree_has_path(out, p.subrange(0, k))
            && tree_node(out, p.subrange(0, k)) is Dir
}

/// Write `data` at `p`: overwrite a file in place (keeping its executable
/// bit unless flags say otherwise), or create it (not executable unless
/// flags say so).  Fails without ancestor directories or onto a directory.
pub open spec fn spec_write_file(
    out: Seq<TreeEntryModel>,
    p: Seq<u8>,
    data: Seq<u8>,
    fl: Option<bool>,
) -> Option<Seq<TreeEntryModel>> {
    if !parents_present(out, p) {
        Option::None
    } else if tree_has_path(out, p) {
        match tree_node(out, p) {
            NodeModel::Dir => Option::None,
            NodeModel::File { data: _, executable } => Option::Some(
                out.update(
                    tree_index_of(out, p),
                    TreeEntryModel {
                        path: p,
                        node: NodeModel::File {
                            data,
                            executable: match fl {
                                Option::Some(x) => x,
                                Option::None => executable,
                            },
                        },
                    },
                ),
            ),
        }
    } else {
        Option::Some(
            out.push(
                TreeEntryModel {
                    path: p,
                    node: NodeModel::File {
                        data,
                        executable: match fl {
                            Option::Some(x) => x,
                            Option::None => false,
                        },
                    },
                },
            ),
        )
    }
}

/// Create what one unconsumed delta entry calls for.
pub open spec fn phase2_step(st: Phase2, e: DiffEntryModel, used: bool) -> Phase2 {
    if st.failed || used {
        st
    } else {
        match e {
            DiffEntryModel::Dir { path } => match spec_mkdir_all(st.out, path) {
                Option::None => Phase2 { failed: true, ..st },
                Option::Some(o) => Phase2 { out: o, ..st },
            },
            DiffEntryModel::File { path, state: StateModel::Raw(b), flags } => match spec_write_file(
                st.out,
                path,
                b,
                flags,
            ) {
                Option::None => Phase2 { failed: true, ..st },
                Option::Some(o) => Phase2 { out: o, ..st },
            },
            DiffEntryModel::File { path, .. } => Phase2 { errors: st.errors.push(path), ..st },
        }
    }
}

/// Create everything the delta entries from `j` on call for.
pub open spec fn phase2_run(st: Phase2, diff: Seq<DiffEntryModel>, used: Seq<bool>, j: int) -> Phase2
    decreases diff.len() - j,
{
    if j < 0 || j >= diff.len() {
        st
    } else {
        phase2_run(phase2_step(st, diff[j], used[j]), diff, used, j + 1)
    }
}

/// Once the create phase has failed it stays failed.
pub proof fn lemma_phase2_failed_sticky(
    st: Phase2,
    diff: Seq<DiffEntryModel>,
    used: Seq<bool>,
    j: int,
)
    requires
        st.failed,
    ensures
        phase2_run(st, diff, used, j).failed,
    decreases diff.len() - j,
{
    if 0 <= j < diff.len() {
        lemma_phase2_failed_sticky(st, diff, used, j + 1);
    }
}

/// What applying `diff` to `target` yields: the reconciled and extended
/// tree and the paths of the patch or identical entries that had no
/// pre-image, or nothing if a patch or a creation failed.
pub open spec fn spec_apply(
    diff: Seq<DiffEntryModel>,
    target: Seq<TreeEntryModel>,
    delete_old: bool,
) -> Option<(Seq<TreeEntryModel>, Seq<Seq<u8>>)> {
    let st1 = phase1_run(diff, delete_old, phase1_init(diff.len()), target);
    if st1.failed {
        Option::None
    } else {
        let st2 = phase2_run(
            Phase2 { out: st1.out, errors: Seq::<Seq<u8>>::empty(), failed: false },
            diff,
            st1.used,
            0,
        );
        if st2.failed {
            Option::None
        } else {
            Option::Some((st2.out, st2.errors))
        }
    }
}

/// Copy one tree entry; the copy has the same view.
fn clone_tree_entry(e: &TreeEntry) -> (r: TreeEntry)
    ensures
        r@ == e@,
{
    match e {
        TreeEntry::Dir { path } => TreeEntry::Dir { path: clone_bytes(path) },
        TreeEntry::File { path, data, executable } => TreeEntry::File {
            path: clone_bytes(path),
            data: clone_bytes(data),
            executable: *executable,
        },
    }
}

/// Is `p` strictly under one of the removed directories?
fn is_under_removed(removed: &Vec<Vec<u8>>, p: &[u8]) -> (r: bool)
    ensures
        r == under_any(p@, byte_views(removed@)),
{
    let mut k: usize = 0;
    while k < removed.len()
        invariant
            0 <= k <= removed@.len(),
            forall|a: int|
                0 <= a < k ==> !is_strictly_under(p@, #[trigger] byte_views(removed@)[a]),
        decreases removed@.len() - k,
    {
        if path_strictly_under(p, removed[k].as_slice()) {
            proof {
                assert(byte_views(removed@)[k as int] == removed@[k as int]@);
            }
            return true;
        }
        proof {
            assert(byte_views(removed@)[k as int] == removed@[k as int]@);
        }
        k += 1;
    }
    false
}

/// The first entry of `entries` carrying `path`.
fn entries_lookup(entries: &Vec<TreeEntry>, path: &[u8]) -> (r: Option<usize>)
    ensures
        match r {
            Option::Some(i) => i < entries@.len() && entry_views(entries@)[i as int].path
                == path@,
            Option::None => !tree_has_path(entry_views(entries@), path@),
        },
{
    let mut i: usize = 0;
    while i < entries.len()
        invariant
            0 <= i <= entries@.len(),
            forall|j: int| 0 <= j < i ==> entry_views(entries@)[j].path != path@,
        decreases entries@.len() - i,
    {
        proof {
            assert(entry_views(entries@)[i as int] == entries@[i as int]@);
        }
        if bytes_eq(entries[i].path().as_slice(), path) {
            return Option::Some(i);
        }
        i += 1;
    }
    Option::None
}

impl DirDiff {
    /// The directory marker for `p`, if the delta holds one.
    fn find_dir(&self, p: &[u8]) -> (r: Option<usize>)
        ensures
            match r {
                Option::Some(j) => j < self@.len() && self@[j as int] is Dir && self@[j as int].path() == p@,
                Option::None => !diff_has_dir(self@, p@),
            },
    {
        let mut j: usize = 0;
        while j < self.entries.len()
            invariant
                0 <= j <= self@.len(),
                self@.len() == self.entries@.len(),
                forall|a: int| 0 <= a < j ==> !((#[trigger] self@[a]) is Dir && self@[a].path() == p@),
            decreases self@.len() - j,
        {
            proof {
                assert(self@[j as int] == self.entries@[j as int]@);
            }
            if self.entries[j].is_dir_entry() && bytes_eq(self.entries[j].path().as_slice(), p) {
                return Option::Some(j);
            }
            j += 1;
        }
        Option::None
    }

    /// The file entry for `p`, if the delta holds one.
    fn find_file(&self, p: &[u8]) -> (r: Option<usize>)
        ensures
            match r {
                Option::Some(j) => j < self@.len() && self@[j as int] is File && self@[j as int].path() == p@,
                Option::None => !diff_has_file(self@, p@),
            },
    {
        let mut j: usize = 0;
        while j < self.entries.len()
            invariant
                0 <= j <= self@.len(),
                self@.len() == self.entries@.len(),
                forall|a: int|
                    0 <= a < j ==> !((#[trigger] self@[a]) is File && self@[a].path() == p@),
            decreases self@.len() - j,
        {
            proof {
                assert(self@[j as int] == self.entries@[j as int]@);
            }
            if !self.entries[j].is_dir_entry() && bytes_eq(
                self.entries[j].path().as_slice(),
                p,
            ) {
                return Option::Some(j);
            }
            j += 1;
        }
        Option::None
    }

    /// Reconcile one existing entry, advancing the phase-1 state in place.
    fn phase1_process(
        &self,
        e: &TreeEntry,
        delete_old: bool,
        out: &mut Vec<TreeEntry>,
        used: &mut Vec<bool>,
        removed: &mut Vec<Vec<u8>>,
    ) -> (ok: bool)
        requires
            diff_wf(self@),
            old(used)@.len() == self@.len(),
        ensures
            final(used)@.len() == self@.len(),
            ({
                let st0 = Phase1 {
                    out: entry_views(old(out)@),
                    used: old(used)@,
                    removed: byte_views(old(removed)@),
                    failed: false,
                };
                let st1 = phase1_step(self@, delete_old, st0, e@);
                if ok {
                    st1 == (Phase1 {
                        out: entry_views(final(out)@),
                        used: final(used)@,
                        removed: byte_views(final(removed)@),
                        failed: false,
                    })
                } else {
                    st1.failed
                }
            }),
    {
        let ghost st0 = Phase1 {
            out: entry_views(out@),
            used: used@,
            removed: byte_views(removed@),
            failed: false,
        };
        if is_under_removed(removed, e.path().as_slice()) {
            return true;
        }
        match e {
            TreeEntry::Dir { path } => {
                match self.find_dir(path.as_slice()) {
                    Option::Some(j) => {
                        proof {
                            lemma_diff_dir_unique(self@, j as int, path@);
                        }
                        used.set(j, true);
                        out.push(clone_tree_entry(e));
                        proof {
                            assert(entry_views(out@) =~= st0.out.push(e@));
                        }
                    },
                    Option::None => {
                        if delete_old {
                            removed.push(clone_bytes(path));
                            proof {
                                assert(byte_views(removed@) =~= st0.removed.push(e@.path));
                            }
                        } else {
                            out.push(clone_tree_entry(e));
                            proof {
                                assert(entry_views(out@) =~= st0.out.push(e@));
                            }
                        }
                    },
                }
                true
            },
            TreeEntry::File { path, data, executable } => {
                match self.find_file(path.as_slice()) {
                    Option::Some(j) => {
                        proof {
                            lemma_diff_file_unique(self@, j as int, path@);
                        }
                        used.set(j, true);
                        match &self.entries[j] {
                            DirDiffEntry::File { state, flags, .. } => {
                                proof {
                                    assert(self@[j as int] == self.entries@[j as int]@);
                                }
                                let new_exec = match flags {
                                    Option::Some(f) => f.executable,
                                    Option::None => *executable,
                                };
                                match state {
                                    DataState::Identical => {
                                        out.push(
                                            TreeEntry::File {
                                                path: clone_bytes(path),
                                                data: clone_bytes(data),
                                                executable: new_exec,
                                            },
                                        );
                                        proof {
                                            assert(entry_views(out@) =~= st0.out.push(
                                                TreeEntryModel {
                                                    path: path@,
                                                    node: NodeModel::File {
                                                        data: data@,
                                                        executable: new_exec,
                                                    },
                                                },
                                            ));
                                        }
                                        true
                                    },
                                    DataState::Raw(b) => {
                                        out.push(
                                            TreeEntry::File {
                                                path: clone_bytes(path),
                                                data: clone_bytes(b),
                                                executable: new_exec,
                                            },
                                        );
                                        proof {
                                            assert(entry_views(out@) =~= st0.out.push(
                                                TreeEntryModel {
                                                    path: path@,
                                                    node: NodeModel::File {
                                                        data: b@,
                                                        executable: new_exec,
                                                    },
                                                },
                                            ));
                                        }
                                        true
                                    },
                                    DataState::Patch(q) => {
                                        match apply_patch(q, data) {
                                            Option::Some(nd) => {
                                                out.push(
                                                    TreeEntry::File {
                                                        path: clone_bytes(path),
                                                        data: nd,
                                                        executable: new_exec,
                                                    },
                                                );
                                                proof {
                                                    assert(entry_views(out@) =~= st0.out.push(
                                                        TreeEntryModel {
                                                            path: path@,
                                                            node: NodeModel::File {
                                                                data: patch_apply_of(
                                                                    q@,
                                                                    data@,
                                                                )->Some_0,
                                                                executable: new_exec,
                                                            },
                                                        },
                                                    ));
                                                }
                                                true
                                            },
                                            Option::None => false,
                                        }
                                    },
                                }
                            },
                            DirDiffEntry::Dir(_) => {
                                proof {
                                    assert(self@[j as int] == self.entries@[j as int]@);
                                    assert(false);
                                }
                                true
                            },
                        }
                    },
                    Option::None => {
                        if !delete_old {
                            out.push(clone_tree_entry(e));
                            proof {
                                assert(entry_views(out@) =~= st0.out.push(e@));
                            }
                        }
                        true
                    },
                }
            },
        }
    }
}


/// Sticks a sequence back together around its first element.
proof fn lemma_concat_unique_drop(
    out: Seq<TreeEntryModel>,
    e: TreeEntryModel,
    rest: Seq<TreeEntryModel>,
)
    requires
        paths_unique(out + (seq![e] + rest)),
    ensures
        paths_unique(out + rest),
        paths_unique(out.push(e) + rest),
{
    let big = out + (seq![e] + rest);
    let small = out + rest;
    assert forall|a: int, b: int|
        0 <= a < b < small.len() implies #[trigger] small[a].path != #[trigger] small[b].path by {
        let a2: int = if a < out.len() { a } else { a + 1 };
        let b2: int = if b < out.len() { b } else { b + 1 };
        assert(small[a] == big[a2]);
        assert(small[b] == big[b2]);
        assert(big[a2].path != big[b2].path);
    }
    let pushed = out.push(e) + rest;
    assert forall|a: int, b: int|
        0 <= a < b < pushed.len() implies #[trigger] pushed[a].path != #[trigger] pushed[b].path by {
        let a2: int = if a < out.len() { a } else if a == out.len() { out.len() as int } else {
            a
        };
        let b2: int = if b == out.len() { out.len() as int } else { b };
        assert(pushed[a] == big[a2]);
        assert(pushed[b] == big[b2]);
        assert(big[a2].path != big[b2].path);
    }
}

/// One phase-1 step only ever appends an entry at the visited path.
proof fn lemma_phase1_step_out(
    diff: Seq<DiffEntryModel>,
    delete_old: bool,
    st: Phase1,
    e: TreeEntryModel,
)
    ensures
        ({
            let st1 = phase1_step(diff, delete_old, st, e);
            st1.out == st.out || (st1.out.len() == st.out.len() + 1 && st1.out.drop_last()
                == st.out && st1.out.last().path == e.path)
        }),
{
    let st1 = phase1_step(diff, delete_old, st, e);
    if st1.out != st.out {
        assert(st1.out.drop_last() =~= st.out);
    }
}

/// Phase 1 only keeps entries at paths of the visited tree, so with a
/// duplicate-free tree its output paths stay unique.
proof fn lemma_phase1_unique(
    diff: Seq<DiffEntryModel>,
    delete_old: bool,
    st: Phase1,
    target: Seq<TreeEntryModel>,
)
    requires
        paths_unique(st.out + target),
    ensures
        paths_unique(phase1_run(diff, delete_old, st, target).out),
    decreases target.len(),
{
    if target.len() == 0 {
        assert(st.out + target =~= st.out);
    } else {
        let e = target.first();
        let rest = target.drop_first();
        let st1 = phase1_step(diff, delete_old, st, e);
        assert(target =~= seq![e] + rest);
        lemma_phase1_step_out(diff, delete_old, st, e);
        lemma_concat_unique_drop(st.out, e, rest);
        if st1.out == st.out {
            assert(paths_unique(st1.out + rest));
        } else {
            assert(st1.out =~= st.out.push(st1.out.last()));
            assert forall|a: int, b: int|
                0 <= a < b < (st1.out + rest).len() implies #[trigger] (st1.out + rest)[a].path
                != #[trigger] (st1.out + rest)[b].path by {
                let withe = st.out.push(e) + rest;
                assert((st1.out + rest)[a].path == withe[a].path);
                assert((st1.out + rest)[b].path == withe[b].path);
            }
        }
        lemma_phase1_unique(diff, delete_old, st1, rest);
    }
}

/// If an intermediate prefix creation fails, the whole creation fails.
proof fn lemma_mkdir_upto_none_sticky(out: Seq<TreeEntryModel>, p: Seq<u8>, k: int, k2: int)
    requires
        k <= k2,
        mkdir_upto(out, p, k) is None,
    ensures
        mkdir_upto(out, p, k2) is None,
    decreases k2 - k,
{
    if k < k2 {
        lemma_mkdir_upto_none_sticky(out, p, k, k2 - 1);
    }
}

/// Require the `k`-byte prefix of `p` to be a directory of `out`, adding
/// it if absent.
fn ensure_dir_exec(out: &mut Vec<TreeEntry>, p: &Vec<u8>, k: usize) -> (ok: bool)
    requires
        k <= p@.len(),
        paths_unique(entry_views(old(out)@)),
    ensures
        ok ==> Option::Some(entry_views(final(out)@)) == ensure_dir(
            entry_views(old(out)@),
            p@.subrange(0, k as int),
        ) && paths_unique(entry_views(final(out)@)),
        !ok ==> ensure_dir(entry_views(old(out)@), p@.subrange(0, k as int)) is None
            && entry_views(final(out)@) == entry_views(old(out)@),
{
    let ghost cur = entry_views(out@);
    let q = crate::codec::copy_range(p.as_slice(), 0, k);
    match entries_lookup(out, q.as_slice()) {
        Option::Some(i) => {
            proof {
                lemma_unique_index(cur, i as int, q@);
                assert(cur[i as int] == out@[i as int]@);
            }
            if out[i].is_dir() {
                true
            } else {
                false
            }
        },
        Option::None => {
            out.push(TreeEntry::Dir { path: q });
            proof {
                assert(entry_views(out@) =~= cur.push(
                    TreeEntryModel { path: p@.subrange(0, k as int), node: NodeModel::Dir },
                ));
                assert forall|a: int, b: int|
                    0 <= a < b < entry_views(out@).len() implies #[trigger] entry_views(
                    out@,
                )[a].path != #[trigger] entry_views(out@)[b].path by {
                    if b == cur.len() {
                        assert(!tree_has_path(cur, p@.subrange(0, k as int)));
                        assert(cur[a].path != p@.subrange(0, k as int));
                    }
                }
            }
            true
        },
    }
}

/// Create directory `p` and its missing ancestors in `out`.
fn mkdir_all_exec(out: &mut Vec<TreeEntry>, p: &Vec<u8>) -> (ok: bool)
    requires
        paths_unique(entry_views(old(out)@)),
    ensures
        ok ==> Option::Some(entry_views(final(out)@)) == spec_mkdir_all(
            entry_views(old(out)@),
            p@,
        ) && paths_unique(entry_views(final(out)@)),
        !ok ==> spec_mkdir_all(entry_views(old(out)@), p@) is None,
{
    let ghost base = entry_views(old(out)@);
    if p.len() == 0 {
        return true;
    }
    let mut c: usize = 1;
    while c < p.len()
        invariant
            1 <= c <= p@.len(),
            base == entry_views(old(out)@),
            mkdir_upto(base, p@, c - 1) == Option::Some(entry_views(out@)),
            paths_unique(entry_views(out@)),
        decreases p@.len() - c,
    {
        let ghost cur = entry_views(out@);
        if p[c] == SLASH {
            let ok = ensure_dir_exec(out, p, c);
            if !ok {
                proof {
                    assert(mkdir_upto(base, p@, c as int) is None);
                    lemma_mkdir_upto_none_sticky(base, p@, c as int, p@.len() as int);
                }
                return false;
            }
            proof {
                assert(mkdir_upto(base, p@, c as int) == Option::Some(entry_views(out@)));
            }
        } else {
            proof {
                assert(mkdir_upto(base, p@, c as int) == Option::Some(entry_views(out@)));
            }
        }
        c += 1;
    }
    let ghost cur = entry_views(out@);
    let ok = ensure_dir_exec(out, p, p.len());
    proof {
        assert(p@.subrange(0, p@.len() as int) =~= p@);
    }
    if !ok {
        proof {
            assert(mkdir_upto(base, p@, p@.len() as int) is None);
        }
        return false;
    }
    proof {
        assert(mkdir_upto(base, p@, p@.len() as int) == Option::Some(entry_views(out@)));
    }
    true
}

/// Write a raw file at `p` in `out`, as `spec_write_file` says.
fn write_file_exec(
    out: &mut Vec<TreeEntry>,
    p: &Vec<u8>,
    data: &Vec<u8>,
    flags: &Option<FileFlags>,
) -> (ok: bool)
    requires
        paths_unique(entry_views(old(out)@)),
    ensures
        ok ==> Option::Some(entry_views(final(out)@)) == spec_write_file(
            entry_views(old(out)@),
            p@,
            data@,
            flags_view(*flags),
        ) && paths_unique(entry_views(final(out)@)),
        !ok ==> spec_write_file(entry_views(old(out)@), p@, data@, flags_view(*flags)) is None,
{
    let ghost base = entry_views(old(out)@);
    let mut k: usize = 0;
    while k < p.len()
        invariant
            0 <= k <= p@.len(),
            base == entry_views(out@),
            paths_unique(base),
            forall|c: int|
                0 <= c < k && #[trigger] p@[c] == SLASH ==> tree_has_path(base, p@.subrange(0, c))
                    && tree_node(base, p@.subrange(0, c)) is Dir,
        decreases p@.len() - k,
    {
        if p[k] == SLASH {
            let q = crate::codec::copy_range(p.as_slice(), 0, k);
            match entries_lookup(out, q.as_slice()) {
                Option::Some(i) => {
                    proof {
                        lemma_unique_index(base, i as int, q@);
                        assert(base[i as int] == out@[i as int]@);
                    }
                    if !out[i].is_dir() {
                        proof {
                            assert(!(tree_node(base, q@) is Dir));
                            assert(!parents_present(base, p@));
                        }
                        return false;
                    }
                },
                Option::None => {
                    proof {
                        assert(!parents_present(base, p@));
                    }
                    return false;
                },
            }
        }
        k += 1;
    }
    proof {
        assert(parents_present(base, p@));
    }
    match entries_lookup(out, p.as_slice()) {
        Option::Some(i) => {
            proof {
                lemma_unique_index(base, i as int, p@);
                assert(base[i as int] == out@[i as int]@);
            }
            let was_exec = match &out[i] {
                TreeEntry::File { executable, .. } => *executable,
                TreeEntry::Dir { .. } => {
                    return false;
                },
            };
            let new_exec = match flags {
                Option::Some(f) => f.executable,
                Option::None => was_exec,
            };
            let ghost before = entry_views(out@);
            out.set(
                i,
                TreeEntry::File { path: clone_bytes(p), data: clone_bytes(data), executable: new_exec },
            );
            proof {
                assert(entry_views(out@) =~= before.update(
                    i as int,
                    TreeEntryModel {
                        path: p@,
                        node: NodeModel::File { data: data@, executable: new_exec },
                    },
                ));
                assert forall|a: int, b: int|
                    0 <= a < b < entry_views(out@).len() implies #[trigger] entry_views(
                    out@,
                )[a].path != #[trigger] entry_views(out@)[b].path by {
                    assert(entry_views(out@)[a].path == before[a].path);
                    assert(entry_views(out@)[b].path == before[b].path);
                }
            }
            true
        },
        Option::None => {
            let new_exec = match flags {
                Option::Some(f) => f.executable,
                Option::None => false,
            };
            let ghost before = entry_views(out@);
            out.push(
                TreeEntry::File { path: clone_bytes(p), data: clone_bytes(data), executable: new_exec },
            );
            proof {
                assert(entry_views(out@) =~= before.push(
                    TreeEntryModel {
                        path: p@,
                        node: NodeModel::File { data: data@, executable: new_exec },
                    },
                ));
                assert forall|a: int, b: int|
                    0 <= a < b < entry_views(out@).len() implies #[trigger] entry_views(
                    out@,
                )[a].path != #[trigger] entry_views(out@)[b].path by {
                    if b == before.len() {
                        assert(!tree_has_path(before, p@));
                        assert(before[a].path != p@);
                    }
                }
            }
            true
        },
    }
}

impl DirDiff {
    /// Create what one unconsumed delta entry calls for.
    fn phase2_process(
        &self,
        j: usize,
        used_j: bool,
        out: &mut Vec<TreeEntry>,
        errors: &mut Vec<Vec<u8>>,
    ) -> (ok: bool)
        requires
            j < self@.len(),
            self@.len() == self.entries@.len(),
            paths_unique(entry_views(old(out)@)),
        ensures
            ({
                let st0 = Phase2 {
                    out: entry_views(old(out)@),
                    errors: byte_views(old(errors)@),
                    failed: false,
                };
                let st1 = phase2_step(st0, self@[j as int], used_j);
                if ok {
                    st1 == (Phase2 {
                        out: entry_views(final(out)@),
                        errors: byte_views(final(errors)@),
                        failed: false,
                    }) && paths_unique(entry_views(final(out)@))
                } else {
                    st1.failed
                }
            }),
    {
        if used_j {
            return true;
        }
        proof {
            assert(self@[j as int] == self.entries@[j as int]@);
        }
        match &self.entries[j] {
            DirDiffEntry::Dir(path) => mkdir_all_exec(out, path),
            DirDiffEntry::File { path, state: DataState::Raw(b), flags } => write_file_exec(
                out,
                path,
                b,
                flags,
            ),
            DirDiffEntry::File { path, .. } => {
                errors.push(clone_bytes(path));
                proof {
                    assert(byte_views(errors@) =~= byte_views(old(errors)@).push(path@));
                }
                true
            },
        }
    }

    /// Apply this delta to a tree, in place of the directory it models.
    ///
    /// Phase one reconciles every existing entry: a matching directory or
    /// file entry is consumed (patching, overwriting or keeping the file's
    /// bytes and setting its flags), an unmatched entry is removed when
    /// `delete_old` is set and kept otherwise.  Phase two creates what was
    /// not consumed: directories with their missing ancestors and raw
    /// files; a patch or identical entry without a pre-image is returned
    /// among the skipped paths.  A patch that does not apply or a creation
    /// that collides aborts with an error.
    pub fn apply_to(&self, dir: &Tree, delete_old: bool) -> (r: Result<
        (Tree, Vec<Vec<u8>>),
        ApplyError,
    >)
        requires
            diff_wf(self@),
            paths_unique(dir@),
        ensures
            match r {
                Result::Ok(p) => spec_apply(self@, dir@, delete_old) == Option::Some(
                    (p.0@, byte_views(p.1@)),
                ) && paths_unique(p.0@),
                Result::Err(_) => spec_apply(self@, dir@, delete_old) is None,
            },
    {
        let ghost n_spec = self@.len();
        let n = self.entries.len();
        let mut used: Vec<bool> = Vec::new();
        while used.len() < n
            invariant
                used@.len() <= n,
                forall|a: int| 0 <= a < used@.len() ==> used@[a] == false,
            decreases n - used@.len(),
        {
            used.push(false);
        }
        proof {
            assert(n_spec == self.entries@.len());
            assert(used@ =~= phase1_init(n_spec).used);
        }
        let mut out: Vec<TreeEntry> = Vec::new();
        let mut removed: Vec<Vec<u8>> = Vec::new();
        let mut i: usize = 0;
        proof {
            assert(entry_views(out@) =~= Seq::<TreeEntryModel>::empty());
            assert(byte_views(removed@) =~= Seq::<Seq<u8>>::empty());
            assert(dir@.skip(0) =~= dir@);
        }
        while i < dir.entries.len()
            invariant
                0 <= i <= dir.entries@.len(),
                dir@.len() == dir.entries@.len(),
                used@.len() == self@.len(),
                diff_wf(self@),
                phase1_run(self@, delete_old, phase1_init(self@.len()), dir@) == phase1_run(
                    self@,
                    delete_old,
                    Phase1 {
                        out: entry_views(out@),
                        used: used@,
                        removed: byte_views(removed@),
                        failed: false,
                    },
                    dir@.skip(i as int),
                ),
            decreases dir.entries@.len() - i,
        {
            let ghost st_now = Phase1 {
                out: entry_views(out@),
                used: used@,
                removed: byte_views(removed@),
                failed: false,
            };
            proof {
                assert(dir@[i as int] == dir.entries@[i as int]@);
                assert(dir@.skip(i as int).first() == dir@[i as int]);
                assert(dir@.skip(i as int).drop_first() =~= dir@.skip(i + 1));
            }
            let ok = self.phase1_process(&dir.entries[i], delete_old, &mut out, &mut used, &mut removed);
            if !ok {
                proof {
                    let st1 = phase1_step(self@, delete_old, st_now, dir@[i as int]);
                    lemma_phase1_failed_sticky(self@, delete_old, st1, dir@.skip(i + 1));
                }
                return Result::Err(ApplyError::PatchFailed);
            }
            i += 1;
        }
        proof {
            assert(dir@.skip(dir@.len() as int) =~= Seq::<TreeEntryModel>::empty());
            assert(Seq::<TreeEntryModel>::empty() + dir@ =~= dir@);
            lemma_phase1_unique(self@, delete_old, phase1_init(self@.len()), dir@);
        }
        let ghost st1_final = phase1_run(self@, delete_old, phase1_init(self@.len()), dir@);
        let ghost used_final = used@;
        let mut errors: Vec<Vec<u8>> = Vec::new();
        let mut j: usize = 0;
        proof {
            assert(byte_views(errors@) =~= Seq::<Seq<u8>>::empty());
        }
        while j < n
            invariant
                0 <= j <= n,
                n == self.entries@.len(),
                self@.len() == self.entries@.len(),
                used@ == used_final,
                used@.len() == self@.len(),
                paths_unique(entry_views(out@)),
                st1_final.failed == false,
                st1_final.used == used_final,
                phase2_run(
                    Phase2 { out: st1_final.out, errors: Seq::<Seq<u8>>::empty(), failed: false },
                    self@,
                    used_final,
                    0,
                ) == phase2_run(
                    Phase2 {
                        out: entry_views(out@),
                        errors: byte_views(errors@),
                        failed: false,
                    },
                    self@,
                    used_final,
                    j as int,
                ),
                spec_apply(self@, dir@, delete_old) == (if phase2_run(
                    Phase2 { out: st1_final.out, errors: Seq::<Seq<u8>>::empty(), failed: false },
                    self@,
                    used_final,
                    0,
                ).failed {
                    Option::<(Seq<TreeEntryModel>, Seq<Seq<u8>>)>::None
                } else {
                    Option::Some(
                        (
                            phase2_run(
                                Phase2 {
                                    out: st1_final.out,
                                    errors: Seq::<Seq<u8>>::empty(),
                                    failed: false,
                                },
                                self@,
                                used_final,
                                0,
                            ).out,
                            phase2_run(
                                Phase2 {
                                    out: st1_final.out,
                                    errors: Seq::<Seq<u8>>::empty(),
                                    failed: false,
                                },
                                self@,
                                used_final,
                                0,
                            ).errors,
                        ),
                    )
                }),
            decreases n - j,
        {
            let ghost st_now = Phase2 {
                out: entry_views(out@),
                errors: byte_views(errors@),
                failed: false,
            };
            let used_j = used[j];
            let ok = self.phase2_process(j, used_j, &mut out, &mut errors);
            if !ok {
                proof {
                    let stf = phase2_step(st_now, self@[j as int], used_j);
                    lemma_phase2_failed_sticky(stf, self@, used_final, j + 1);
                }
                return Result::Err(ApplyError::WriteFailed);
            }
            j += 1;
        }
        Result::Ok((Tree { entries: out }, errors))
    }
}

} // verus!
