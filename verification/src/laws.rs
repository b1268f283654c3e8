//! Theorems relating the differ's build and apply sides.

use vstd::prelude::*;

use crate::apply::{Phase1, Phase2, diff_dir_index, diff_file_index, diff_has_dir, diff_has_file,
    lemma_diff_dir_unique, lemma_diff_file_unique, phase1_init, phase1_run, phase1_step,
    phase2_run, phase2_step, spec_apply, under_any};
use crate::diff::{DiffEntryModel, StateModel, build_entry, diff_wf, lemma_spec_build_wf,
    patch_entries_apply, spec_build};
use crate::hashing::rapid_hash_of;
use crate::patching::{patch_apply_of, patch_of};
use crate::tree::{NodeModel, SLASH, TreeEntryModel, file_bytes_at, has_dir_before, is_normalized_path,
    is_strictly_under, lemma_unique_index, paths_unique, tree_has_path,
    tree_index_of, tree_map, tree_node, tree_wf};

verus! {

/// Diffing a tree against itself marks every file identical.
proof fn lemma_build_entry_self(x: Seq<TreeEntryModel>, i: int)
    requires
        paths_unique(x),
        0 <= i < x.len(),
    ensures
        build_entry(x, x[i]) == (match x[i].node {
            NodeModel::Dir => DiffEntryModel::Dir { path: x[i].path },
            NodeModel::File { data: _, executable } => DiffEntryModel::File {
                path: x[i].path,
                state: StateModel::Identical,
                flags: Option::Some(executable),
            },
        }),
{
    lemma_unique_index(x, i, x[i].path);
    match x[i].node {
        NodeModel::Dir => {},
        NodeModel::File { data, executable } => {
            assert(file_bytes_at(x, x[i].path) == data);
        },
    }
}

/// The identity-diff reconcile state after `i` entries: everything kept
/// verbatim, the first `i` delta entries consumed, nothing removed.
spec fn identity_state(x: Seq<TreeEntryModel>, i: int) -> Phase1 {
    Phase1 {
        out: x.take(i),
        used: Seq::new(x.len(), |j: int| j < i),
        removed: Seq::<Seq<u8>>::empty(),
        failed: false,
    }
}

/// Reconciling a tree against its identity delta keeps it verbatim.
proof fn lemma_phase1_identity(x: Seq<TreeEntryModel>, i: int)
    requires
        tree_wf(x),
        0 <= i <= x.len(),
    ensures
        phase1_run(spec_build(x, x), true, identity_state(x, i), x.skip(i)) == identity_state(
            x,
            x.len() as int,
        ),
    decreases x.len() - i,
{
    let diff = spec_build(x, x);
    lemma_spec_build_wf(x, x);
    if i == x.len() {
        assert(x.skip(i).len() == 0);
        assert(identity_state(x, i).used =~= identity_state(x, x.len() as int).used);
        assert(identity_state(x, i).out =~= identity_state(x, x.len() as int).out);
    } else {
        let e = x[i];
        assert(x.skip(i).first() == e);
        assert(x.skip(i).drop_first() =~= x.skip(i + 1));
        let st = identity_state(x, i);
        lemma_build_entry_self(x, i);
        assert(diff[i] == build_entry(x, e));
        let st1 = phase1_step(diff, true, st, e);
        assert(st1 == identity_state(x, i + 1)) by {
            assert(!under_any(e.path, st.removed));
            match e.node {
                NodeModel::Dir => {
                    assert(diff[i] is Dir && diff[i].path() == e.path);
                    lemma_diff_dir_unique(diff, i, e.path);
                    assert(st.out.push(e) =~= x.take(i + 1));
                    assert(st.used.update(i, true) =~= identity_state(x, i + 1).used);
                },
                NodeModel::File { data, executable } => {
                    assert(diff[i] is File && diff[i].path() == e.path);
                    lemma_diff_file_unique(diff, i, e.path);
                    assert(st.out.push(
                        TreeEntryModel {
                            path: e.path,
                            node: NodeModel::File { data, executable },
                        },
                    ) =~= x.take(i + 1)) by {
                        assert(e == TreeEntryModel {
                            path: e.path,
                            node: NodeModel::File { data, executable },
                        });
                    }
                    assert(st.used.update(i, true) =~= identity_state(x, i + 1).used);
                },
            }
        }
        lemma_phase1_identity(x, i + 1);
    }
}

/// Creating nothing changes nothing: with every delta entry consumed the
/// create phase is a no-op.
proof fn lemma_phase2_all_used(st: Phase2, diff: Seq<DiffEntryModel>, used: Seq<bool>, j: int)
    requires
        used.len() == diff.len(),
        forall|a: int| j <= a < diff.len() ==> #[trigger] used[a],
    ensures
        phase2_run(st, diff, used, j) == st,
    decreases diff.len() - j,
{
    if 0 <= j < diff.len() {
        assert(used[j]);
        assert(phase2_step(st, diff[j], used[j]) == st);
        lemma_phase2_all_used(st, diff, used, j + 1);
    }
}

/// Identity diff is a no-op: applying the delta a well-formed tree builds
/// against itself, with deletion of unmatched entries enabled, returns the
/// tree unchanged, entry for entry, and reports no skipped paths.
pub proof fn lemma_identity_apply(x: Seq<TreeEntryModel>)
    requires
        tree_wf(x),
    ensures
        spec_apply(spec_build(x, x), x, true) == Option::Some(
            (x, Seq::<Seq<u8>>::empty()),
        ),
{
    let diff = spec_build(x, x);
    let n = x.len() as int;
    assert(phase1_init(diff.len()) == identity_state(x, 0)) by {
        assert(phase1_init(diff.len()).used =~= identity_state(x, 0).used);
        assert(phase1_init(diff.len()).out =~= identity_state(x, 0).out);
    }
    assert(x.skip(0) =~= x);
    lemma_phase1_identity(x, 0);
    let st1 = phase1_run(diff, true, phase1_init(diff.len()), x);
    assert(st1 == identity_state(x, n));
    assert(st1.out =~= x);
    let st2_init = Phase2 { out: st1.out, errors: Seq::<Seq<u8>>::empty(), failed: false };
    lemma_phase2_all_used(st2_init, diff, st1.used, 0);
}


/// A directory stands at `p`.
pub open spec fn dir_at(s: Seq<TreeEntryModel>, p: Seq<u8>) -> bool {
    tree_has_path(s, p) && tree_node(s, p) is Dir
}

/// A regular file stands at `p`.
pub open spec fn file_at(s: Seq<TreeEntryModel>, p: Seq<u8>) -> bool {
    tree_has_path(s, p) && tree_node(s, p) is File
}

/// On disk, `p` vanishes with a removed ancestor: some ancestor directory
/// of the old tree is no directory of the new tree.
pub open spec fn dropped(old: Seq<TreeEntryModel>, new: Seq<TreeEntryModel>, p: Seq<u8>) -> bool {
    exists|a: Seq<u8>|
        #[trigger] is_strictly_under(p, a) && dir_at(old, a) && !dir_at(new, a)
}

/// A directory the reconcile phase removes outright: gone from the new
/// tree, and not itself below another removed directory.
pub open spec fn removed_root(old: Seq<TreeEntryModel>, new: Seq<TreeEntryModel>, r: Seq<u8>) -> bool {
    dir_at(old, r) && !dir_at(new, r) && !dropped(old, new, r)
}

/// Being strictly under is transitive.
proof fn lemma_under_trans(p: Seq<u8>, a: Seq<u8>, b: Seq<u8>)
    requires
        is_strictly_under(p, a),
        is_strictly_under(a, b),
    ensures
        is_strictly_under(p, b),
{
    assert(p.subrange(0, b.len() as int) =~= a.subrange(0, b.len() as int));
    assert(p[b.len() as int] == a[b.len() as int]);
}

/// Anything dropped lies under some removed root.
proof fn lemma_dropped_root(old: Seq<TreeEntryModel>, new: Seq<TreeEntryModel>, p: Seq<u8>)
    requires
        dropped(old, new, p),
    ensures
        exists|a: Seq<u8>|
            #[trigger] is_strictly_under(p, a) && removed_root(old, new, a),
    decreases p.len(),
{
    let a = choose|a: Seq<u8>|
        #[trigger] is_strictly_under(p, a) && dir_at(old, a) && !dir_at(new, a);
    if !dropped(old, new, a) {
        assert(is_strictly_under(p, a) && removed_root(old, new, a));
    } else {
        lemma_dropped_root(old, new, a);
        let a2 = choose|a2: Seq<u8>|
            #[trigger] is_strictly_under(a, a2) && removed_root(old, new, a2);
        lemma_under_trans(p, a, a2);
        assert(is_strictly_under(p, a2) && removed_root(old, new, a2));
    }
}

/// Shape of the built delta: same length as the new tree, same path and
/// kind per index.
proof fn lemma_diff_shape(old: Seq<TreeEntryModel>, new: Seq<TreeEntryModel>)
    ensures
        spec_build(old, new).len() == new.len(),
        forall|j: int|
            0 <= j < new.len() ==> (#[trigger] spec_build(old, new)[j]).path() == new[j].path && (
            spec_build(old, new)[j] is Dir <==> new[j].node is Dir),
{
    let diff = spec_build(old, new);
    assert forall|j: int|
        0 <= j < new.len() implies (#[trigger] diff[j]).path() == new[j].path && (diff[j] is Dir
        <==> new[j].node is Dir) by {
        assert(diff[j] == build_entry(old, new[j]));
        match new[j].node {
            NodeModel::Dir => {},
            NodeModel::File { data, executable } => {},
        }
    }
}

/// The delta holds a directory marker for `p` exactly when the new tree
/// has a directory there, and it sits at the new tree's index for `p`.
proof fn lemma_diff_dir_at(old: Seq<TreeEntryModel>, new: Seq<TreeEntryModel>, p: Seq<u8>)
    requires
        tree_wf(new),
    ensures
        diff_has_dir(spec_build(old, new), p) <==> dir_at(new, p),
        dir_at(new, p) ==> diff_dir_index(spec_build(old, new), p) == tree_index_of(new, p),
{
    let diff = spec_build(old, new);
    lemma_diff_shape(old, new);
    lemma_spec_build_wf(old, new);
    if dir_at(new, p) {
        let t = tree_index_of(new, p);
        assert(new[t].path == p);
        assert(new[t].node == tree_node(new, p));
        assert(diff[t] is Dir && diff[t].path() == p);
        lemma_diff_dir_unique(diff, t, p);
    }
    if diff_has_dir(diff, p) {
        let j = diff_dir_index(diff, p);
        assert(0 <= j < diff.len() && diff[j] is Dir && diff[j].path() == p);
        assert(new[j].path == p && new[j].node is Dir);
        lemma_unique_index(new, j, p);
    }
}

/// The delta holds a file entry for `p` exactly when the new tree has a
/// file there, and it sits at the new tree's index for `p`.
proof fn lemma_diff_file_at(old: Seq<TreeEntryModel>, new: Seq<TreeEntryModel>, p: Seq<u8>)
    requires
        tree_wf(new),
    ensures
        diff_has_file(spec_build(old, new), p) <==> file_at(new, p),
        file_at(new, p) ==> diff_file_index(spec_build(old, new), p) == tree_index_of(new, p)
            && spec_build(old, new)[diff_file_index(spec_build(old, new), p)] == build_entry(
            old,
            new[tree_index_of(new, p)],
        ),
{
    let diff = spec_build(old, new);
    lemma_diff_shape(old, new);
    lemma_spec_build_wf(old, new);
    if file_at(new, p) {
        let t = tree_index_of(new, p);
        assert(new[t].path == p);
        assert(new[t].node == tree_node(new, p));
        assert(diff[t] is File && diff[t].path() == p);
        lemma_diff_file_unique(diff, t, p);
        assert(diff[t] == build_entry(old, new[t]));
    }
    if diff_has_file(diff, p) {
        let j = diff_file_index(diff, p);
        assert(0 <= j < diff.len() && diff[j] is File && diff[j].path() == p);
        assert(new[j].path == p && new[j].node is File);
        lemma_unique_index(new, j, p);
    }
}


/// No new file's content collides with the old content at its path: equal
/// hashes mean equal bytes.
pub open spec fn no_collisions(old: Seq<TreeEntryModel>, new: Seq<TreeEntryModel>) -> bool {
    forall|t: int|
        0 <= t < new.len() && (#[trigger] new[t].node) is File ==> (rapid_hash_of(
            new[t].node->File_data,
        ) == rapid_hash_of(file_bytes_at(old, new[t].path)) ==> new[t].node->File_data
            == file_bytes_at(old, new[t].path))
}

/// Every new file marked identical has a true file pre-image: where the
/// hashes match, the old tree holds a regular file at that path.
pub open spec fn identicals_have_preimage(
    old: Seq<TreeEntryModel>,
    new: Seq<TreeEntryModel>,
) -> bool {
    forall|t: int|
        0 <= t < new.len() && (#[trigger] new[t].node) is File ==> (rapid_hash_of(
            new[t].node->File_data,
        ) == rapid_hash_of(file_bytes_at(old, new[t].path)) ==> file_at(old, new[t].path))
}

/// The entry the new tree holds at `p`.
pub open spec fn new_entry_at(new: Seq<TreeEntryModel>, p: Seq<u8>) -> TreeEntryModel {
    TreeEntryModel { path: p, node: tree_node(new, p) }
}

/// Is the old entry at index `k` kept by the reconcile phase?
pub open spec fn kept_at(old: Seq<TreeEntryModel>, new: Seq<TreeEntryModel>, k: int) -> bool {
    if old[k].node is Dir {
        dir_at(new, old[k].path)
    } else {
        file_at(new, old[k].path)
    }
}

/// The reconciled output after the first `i` old entries.
pub open spec fn p3_out(old: Seq<TreeEntryModel>, new: Seq<TreeEntryModel>, i: int) -> Seq<
    TreeEntryModel,
>
    decreases i,
{
    if i <= 0 {
        Seq::<TreeEntryModel>::empty()
    } else if kept_at(old, new, i - 1) {
        p3_out(old, new, i - 1).push(new_entry_at(new, old[i - 1].path))
    } else {
        p3_out(old, new, i - 1)
    }
}

/// The removed directories after the first `i` old entries.
pub open spec fn p3_removed(old: Seq<TreeEntryModel>, new: Seq<TreeEntryModel>, i: int) -> Seq<
    Seq<u8>,
>
    decreases i,
{
    if i <= 0 {
        Seq::<Seq<u8>>::empty()
    } else if old[i - 1].node is Dir && removed_root(old, new, old[i - 1].path) {
        p3_removed(old, new, i - 1).push(old[i - 1].path)
    } else {
        p3_removed(old, new, i - 1)
    }
}

/// Has delta entry `j` been consumed by one of the first `i` old entries?
pub open spec fn consumed_at(
    old: Seq<TreeEntryModel>,
    new: Seq<TreeEntryModel>,
    j: int,
    i: int,
) -> bool {
    exists|k: int|
        0 <= k < i && (#[trigger] old[k]).path == new[j].path && (old[k].node is Dir
            <==> new[j].node is Dir)
}

/// The reconcile state after the first `i` old entries.
pub open spec fn p3_state(old: Seq<TreeEntryModel>, new: Seq<TreeEntryModel>, i: int) -> Phase1 {
    Phase1 {
        out: p3_out(old, new, i),
        used: Seq::new(new.len() as nat, |j: int| consumed_at(old, new, j, i)),
        removed: p3_removed(old, new, i),
        failed: false,
    }
}

/// What the removed list holds: exactly the removed roots among the first
/// `i` old entries.
proof fn lemma_p3_removed_elems(old: Seq<TreeEntryModel>, new: Seq<TreeEntryModel>, i: int)
    requires
        i <= old.len(),
    ensures
        forall|ri: int|
            0 <= ri < p3_removed(old, new, i).len() ==> removed_root(
                old,
                new,
                #[trigger] p3_removed(old, new, i)[ri],
            ),
        forall|k: int|
            0 <= k < i && (#[trigger] old[k]).node is Dir && removed_root(old, new, old[k].path)
                ==> p3_removed(old, new, i).contains(old[k].path),
    decreases i,
{
    if i > 0 {
        lemma_p3_removed_elems(old, new, i - 1);
        assert forall|k: int|
            0 <= k < i && (#[trigger] old[k]).node is Dir && removed_root(old, new, old[k].path)
            implies p3_removed(old, new, i).contains(old[k].path) by {
            if k < i - 1 {
                assert(p3_removed(old, new, i - 1).contains(old[k].path));
                let ri = choose|ri: int|
                    0 <= ri < p3_removed(old, new, i - 1).len() && #[trigger] p3_removed(
                        old,
                        new,
                        i - 1,
                    )[ri] == old[k].path;
                assert(p3_removed(old, new, i)[ri] == old[k].path);
            } else {
                let r = p3_removed(old, new, i);
                assert(r[r.len() - 1] == old[i - 1].path);
            }
        }
    }
}

/// For an entry of a well-formed old tree, lying under a removed directory
/// is the same as being dropped.
proof fn lemma_under_iff_dropped(
    old: Seq<TreeEntryModel>,
    new: Seq<TreeEntryModel>,
    k: int,
)
    requires
        tree_wf(old),
        0 <= k < old.len(),
    ensures
        under_any(old[k].path, p3_removed(old, new, k)) <==> dropped(old, new, old[k].path),
{
    let p = old[k].path;
    let removed = p3_removed(old, new, k);
    lemma_p3_removed_elems(old, new, k);
    if under_any(p, removed) {
        let ri = choose|ri: int|
            0 <= ri < removed.len() && is_strictly_under(p, #[trigger] removed[ri]);
        assert(removed_root(old, new, removed[ri]));
        assert(dropped(old, new, p)) by {
            assert(is_strictly_under(p, removed[ri]) && dir_at(old, removed[ri]) && !dir_at(
                new,
                removed[ri],
            ));
        }
    }
    if dropped(old, new, p) {
        lemma_dropped_root(old, new, p);
        let a = choose|a: Seq<u8>|
            #[trigger] is_strictly_under(p, a) && removed_root(old, new, a);
        assert(p[a.len() as int] == SLASH);
        assert(has_dir_before(old, k, p.subrange(0, a.len() as int)));
        let j = choose|j: int|
            0 <= j < k && #[trigger] old[j].path == p.subrange(0, a.len() as int) && old[j].node is Dir;
        assert(old[j].path == a);
        assert(p3_removed(old, new, k).contains(a)) by {
            lemma_p3_removed_elems(old, new, k);
            assert(0 <= j < k && old[j].node is Dir && removed_root(old, new, old[j].path));
        }
        let ri = choose|ri: int| 0 <= ri < removed.len() && #[trigger] removed[ri] == a;
        assert(is_strictly_under(p, removed[ri]));
    }
}


/// One reconcile step moves the state from `i` to `i + 1` entries.
#[verifier::rlimit(100)]
proof fn lemma_p3_phase1_step(old: Seq<TreeEntryModel>, new: Seq<TreeEntryModel>, k: int)
    requires
        tree_wf(old),
        tree_wf(new),
        no_collisions(old, new),
        identicals_have_preimage(old, new),
        patch_entries_apply(old, new, new.len() as int),
        0 <= k < old.len(),
    ensures
        phase1_step(spec_build(old, new), true, p3_state(old, new, k), old[k]) == p3_state(
            old,
            new,
            k + 1,
        ),
{
    let diff = spec_build(old, new);
    let st = p3_state(old, new, k);
    let e = old[k];
    let p = e.path;
    let st1 = phase1_step(diff, true, st, e);
    lemma_diff_shape(old, new);
    lemma_under_iff_dropped(old, new, k);
    lemma_unique_index(old, k, p);
    if dropped(old, new, p) {
        // the entry is already gone from disk: nothing changes
        assert(under_any(p, st.removed));
        assert(!kept_at(old, new, k)) by {
            if e.node is Dir {
                if dir_at(new, p) {
                    let t = tree_index_of(new, p);
                    assert(new[t].path == p);
                    assert(!dropped(old, new, p)) by {
                        lemma_new_path_not_dropped(old, new, t);
                    }
                }
            } else {
                if file_at(new, p) {
                    let t = tree_index_of(new, p);
                    assert(new[t].path == p);
                    assert(!dropped(old, new, p)) by {
                        lemma_new_path_not_dropped(old, new, t);
                    }
                }
            }
        }
        assert(!(e.node is Dir && removed_root(old, new, p)));
        assert(st1.out == p3_out(old, new, k + 1));
        assert(st1.removed == p3_removed(old, new, k + 1));
        assert(st1.used =~= p3_state(old, new, k + 1).used) by {
            assert forall|j: int| 0 <= j < new.len() implies consumed_at(old, new, j, k + 1)
                == consumed_at(old, new, j, k) by {
                if consumed_at(old, new, j, k + 1) && !consumed_at(old, new, j, k) {
                    assert(old[k].path == new[j].path);
                    lemma_new_path_not_dropped(old, new, j);
                }
            }
        }
    } else {
        assert(!under_any(p, st.removed));
        match e.node {
            NodeModel::Dir => {
                lemma_diff_dir_at(old, new, p);
                if dir_at(new, p) {
                    let t = tree_index_of(new, p);
                    assert(diff_has_dir(diff, p));
                    assert(diff_dir_index(diff, p) == t);
                    assert(kept_at(old, new, k));
                    assert(st1.out == st.out.push(e));
                    assert(e == new_entry_at(new, p)) by {
                        assert(tree_node(new, p) is Dir);
                        assert(tree_node(old, p) == e.node);
                    }
                    assert(st1.out == p3_out(old, new, k + 1));
                    assert(st1.removed == p3_removed(old, new, k + 1));
                    assert(st1.used =~= p3_state(old, new, k + 1).used) by {
                        assert(new[t].path == p && new[t].node is Dir);
                        assert forall|j: int| 0 <= j < new.len() implies st.used.update(t, true)[j]
                            == consumed_at(old, new, j, k + 1) by {
                            if j == t {
                                assert((#[trigger] old[k]).path == new[t].path);
                                assert(consumed_at(old, new, t, k + 1));
                            } else {
                                if consumed_at(old, new, j, k + 1) && !consumed_at(
                                    old,
                                    new,
                                    j,
                                    k,
                                ) {
                                    assert(old[k].path == new[j].path);
                                    assert(new[j].node is Dir);
                                    assert(new[j].path == new[t].path);
                                    assert(false);
                                }
                            }
                        }
                    }
                } else {
                    assert(!diff_has_dir(diff, p));
                    assert(!kept_at(old, new, k));
                    assert(removed_root(old, new, p)) by {
                        assert(dir_at(old, p)) by {
                            assert(tree_node(old, p) == e.node);
                        }
                    }
                    assert(st1.removed == st.removed.push(p));
                    assert(st1.removed == p3_removed(old, new, k + 1));
                    assert(st1.out == p3_out(old, new, k + 1));
                    assert(st1.used =~= p3_state(old, new, k + 1).used) by {
                        assert forall|j: int| 0 <= j < new.len() implies consumed_at(
                            old,
                            new,
                            j,
                            k + 1,
                        ) == consumed_at(old, new, j, k) by {
                            if consumed_at(old, new, j, k + 1) && !consumed_at(old, new, j, k) {
                                assert(old[k].path == new[j].path);
                                assert(new[j].node is Dir);
                                lemma_unique_index(new, j, p);
                                assert(dir_at(new, p));
                                assert(false);
                            }
                        }
                    }
                }
            },
            NodeModel::File { data: od, executable: oex } => {
                lemma_diff_file_at(old, new, p);
                assert(file_bytes_at(old, p) == od) by {
                    assert(tree_node(old, p) == e.node);
                }
                if file_at(new, p) {
                    let t = tree_index_of(new, p);
                    assert(diff_has_file(diff, p));
                    assert(diff_file_index(diff, p) == t);
                    assert(diff[t] == build_entry(old, new[t]));
                    assert(new[t].path == p && new[t].node == tree_node(new, p));
                    let nd = new[t].node->File_data;
                    let nex = new[t].node->File_executable;
                    assert(kept_at(old, new, k));
                    let pushed = TreeEntryModel {
                        path: p,
                        node: NodeModel::File { data: nd, executable: nex },
                    };
                    assert(pushed == new_entry_at(new, p)) by {
                        assert(tree_node(new, p) == NodeModel::File {
                            data: nd,
                            executable: nex,
                        });
                    }
                    let ob = file_bytes_at(old, p);
                    if rapid_hash_of(nd) == rapid_hash_of(ob) {
                        assert(diff[t]->File_state is Identical);
                        assert(nd == ob);
                        assert(st1.out == st.out.push(
                            TreeEntryModel {
                                path: p,
                                node: NodeModel::File { data: od, executable: nex },
                            },
                        ));
                        assert(od == nd);
                    } else if ob.len() == 0 {
                        assert(diff[t]->File_state == StateModel::Raw(nd));
                        assert(st1.out == st.out.push(pushed));
                    } else {
                        assert(diff[t]->File_state == StateModel::Patch(patch_of(ob, nd)));
                        assert(patch_apply_of(patch_of(ob, nd), ob) == Option::Some(nd));
                        assert(st1.out == st.out.push(pushed));
                    }
                    assert(st1.failed == false);
                    assert(st1.out == p3_out(old, new, k + 1));
                    assert(st1.removed == p3_removed(old, new, k + 1));
                    assert(st1.used =~= p3_state(old, new, k + 1).used) by {
                        assert forall|j: int| 0 <= j < new.len() implies st.used.update(t, true)[j]
                            == consumed_at(old, new, j, k + 1) by {
                            if j == t {
                                assert((#[trigger] old[k]).path == new[t].path);
                                assert(consumed_at(old, new, t, k + 1));
                            } else {
                                if consumed_at(old, new, j, k + 1) && !consumed_at(
                                    old,
                                    new,
                                    j,
                                    k,
                                ) {
                                    assert(old[k].path == new[j].path);
                                    assert(new[j].node is File);
                                    assert(new[j].path == new[t].path);
                                    assert(false);
                                }
                            }
                        }
                    }
                } else {
                    assert(!diff_has_file(diff, p));
                    assert(!kept_at(old, new, k));
                    assert(st1.out == p3_out(old, new, k + 1));
                    assert(st1.removed == p3_removed(old, new, k + 1));
                    assert(st1.used =~= p3_state(old, new, k + 1).used) by {
                        assert forall|j: int| 0 <= j < new.len() implies consumed_at(
                            old,
                            new,
                            j,
                            k + 1,
                        ) == consumed_at(old, new, j, k) by {
                            if consumed_at(old, new, j, k + 1) && !consumed_at(old, new, j, k) {
                                assert(old[k].path == new[j].path);
                                assert(new[j].node is File);
                                lemma_unique_index(new, j, p);
                                assert(file_at(new, p));
                                assert(false);
                            }
                        }
                    }
                }
            },
        }
    }
}

/// A path of the new tree is never dropped: its ancestors are directories
/// of the new tree.
proof fn lemma_new_path_not_dropped(old: Seq<TreeEntryModel>, new: Seq<TreeEntryModel>, t: int)
    requires
        tree_wf(new),
        0 <= t < new.len(),
    ensures
        !dropped(old, new, new[t].path),
{
    let p = new[t].path;
    if dropped(old, new, p) {
        let a = choose|a: Seq<u8>|
            #[trigger] is_strictly_under(p, a) && dir_at(old, a) && !dir_at(new, a);
        assert(p[a.len() as int] == SLASH);
        assert(has_dir_before(new, t, p.subrange(0, a.len() as int)));
        let j = choose|j: int|
            0 <= j < t && #[trigger] new[j].path == p.subrange(0, a.len() as int) && new[j].node is Dir;
        lemma_unique_index(new, j, a);
        assert(tree_node(new, a) == new[j].node);
        assert(dir_at(new, a));
    }
}


/// Reconciling the whole old tree reaches the characterized final state.
proof fn lemma_p3_phase1_run(old: Seq<TreeEntryModel>, new: Seq<TreeEntryModel>, i: int)
    requires
        tree_wf(old),
        tree_wf(new),
        no_collisions(old, new),
        identicals_have_preimage(old, new),
        patch_entries_apply(old, new, new.len() as int),
        0 <= i <= old.len(),
    ensures
        phase1_run(spec_build(old, new), true, p3_state(old, new, i), old.skip(i)) == p3_state(
            old,
            new,
            old.len() as int,
        ),
    decreases old.len() - i,
{
    if i == old.len() {
        assert(old.skip(i).len() == 0);
    } else {
        assert(old.skip(i).first() == old[i]);
        assert(old.skip(i).drop_first() =~= old.skip(i + 1));
        lemma_p3_phase1_step(old, new, i);
        lemma_p3_phase1_run(old, new, i + 1);
    }
}

/// What the reconciled output holds: one entry per kept old entry, carrying
/// the new tree's node, and no path twice.
proof fn lemma_p3_out_contents(old: Seq<TreeEntryModel>, new: Seq<TreeEntryModel>, i: int)
    requires
        tree_wf(old),
        tree_wf(new),
        0 <= i <= old.len(),
    ensures
        paths_unique(p3_out(old, new, i)),
        forall|q: Seq<u8>|
            #[trigger] tree_has_path(p3_out(old, new, i), q) <==> exists|k: int|
                0 <= k < i && (#[trigger] old[k]).path == q && kept_at(old, new, k),
        forall|q: Seq<u8>|
            #[trigger] tree_has_path(p3_out(old, new, i), q) ==> tree_node(
                p3_out(old, new, i),
                q,
            ) == tree_node(new, q),
    decreases i,
{
    if i > 0 {
        lemma_p3_out_contents(old, new, i - 1);
        let prev = p3_out(old, new, i - 1);
        let cur = p3_out(old, new, i);
        let p = old[i - 1].path;
        if kept_at(old, new, i - 1) {
            assert(cur == prev.push(new_entry_at(new, p)));
            assert(!tree_has_path(prev, p)) by {
                if tree_has_path(prev, p) {
                    let k = choose|k: int|
                        0 <= k < i - 1 && (#[trigger] old[k]).path == p && kept_at(old, new, k);
                    assert(old[k].path == old[i - 1].path);
                }
            }
            assert(paths_unique(cur)) by {
                assert forall|a: int, b: int|
                    0 <= a < b < cur.len() implies #[trigger] cur[a].path != #[trigger] cur[
                    b].path by {
                    if b == prev.len() {
                        if cur[a].path == p {
                            assert(tree_has_path(prev, p)) by {
                                assert(prev[a].path == p);
                            }
                        }
                    }
                }
            }
            assert forall|q: Seq<u8>| #[trigger] tree_has_path(cur, q) implies (exists|k: int|
                0 <= k < i && (#[trigger] old[k]).path == q && kept_at(old, new, k)) by {
                let ci = choose|ci: int| 0 <= ci < cur.len() && #[trigger] cur[ci].path == q;
                if ci < prev.len() {
                    assert(tree_has_path(prev, q)) by {
                        assert(prev[ci].path == q);
                    }
                    let k = choose|k: int|
                        0 <= k < i - 1 && (#[trigger] old[k]).path == q && kept_at(old, new, k);
                    assert(0 <= k < i && old[k].path == q && kept_at(old, new, k));
                } else {
                    assert(q == p);
                    assert(0 <= i - 1 < i && old[i - 1].path == q && kept_at(old, new, i - 1));
                }
            }
            assert forall|q: Seq<u8>|
                (exists|k: int|
                    0 <= k < i && (#[trigger] old[k]).path == q && kept_at(old, new, k)) implies
                #[trigger] tree_has_path(cur, q) by {
                let k = choose|k: int|
                    0 <= k < i && (#[trigger] old[k]).path == q && kept_at(old, new, k);
                if k < i - 1 {
                    assert(tree_has_path(prev, q));
                    let pi = choose|pi: int| 0 <= pi < prev.len() && #[trigger] prev[pi].path == q;
                    assert(cur[pi].path == q);
                } else {
                    assert(cur[cur.len() - 1].path == q);
                }
            }
            assert forall|q: Seq<u8>| #[trigger] tree_has_path(cur, q) implies tree_node(cur, q)
                == tree_node(new, q) by {
                let ci = tree_index_of(cur, q);
                if ci < prev.len() {
                    assert(tree_has_path(prev, q)) by {
                        assert(prev[ci].path == q);
                    }
                    assert(tree_node(prev, q) == tree_node(new, q));
                    lemma_unique_index(prev, tree_index_of(prev, q), q);
                    assert(prev[tree_index_of(prev, q)].path == q);
                    assert(tree_index_of(prev, q) == ci) by {
                        lemma_unique_index(cur, ci, q);
                        if tree_index_of(prev, q) != ci {
                            assert(cur[tree_index_of(prev, q)].path == q);
                            assert(cur[ci].path == q);
                        }
                    }
                    assert(tree_node(cur, q) == prev[tree_index_of(prev, q)].node);
                } else {
                    assert(cur[ci] == new_entry_at(new, p));
                    assert(q == p);
                    assert(tree_node(cur, q) == tree_node(new, q));
                }
            }
        } else {
            assert(cur == prev);
        }
    } else {
        assert forall|q: Seq<u8>| !(#[trigger] tree_has_path(p3_out(old, new, 0), q)) by {}
    }
}


/// Pushing a fresh entry extends the tree by exactly that path.
proof fn lemma_tree_push(s: Seq<TreeEntryModel>, m: TreeEntryModel)
    requires
        paths_unique(s),
        !tree_has_path(s, m.path),
    ensures
        paths_unique(s.push(m)),
        forall|q: Seq<u8>|
            #[trigger] tree_has_path(s.push(m), q) <==> (tree_has_path(s, q) || q == m.path),
        tree_node(s.push(m), m.path) == m.node,
        forall|q: Seq<u8>|
            tree_has_path(s, q) ==> tree_node(s.push(m), q) == #[trigger] tree_node(s, q),
{
    let c = s.push(m);
    assert forall|a: int, b: int|
        0 <= a < b < c.len() implies #[trigger] c[a].path != #[trigger] c[b].path by {
        if b == s.len() {
            if c[a].path == m.path {
                assert(s[a].path == m.path);
            }
        }
    }
    assert forall|q: Seq<u8>|
        #[trigger] tree_has_path(c, q) implies (tree_has_path(s, q) || q == m.path) by {
        let ci = choose|ci: int| 0 <= ci < c.len() && #[trigger] c[ci].path == q;
        if ci < s.len() {
            assert(s[ci].path == q);
        }
    }
    assert forall|q: Seq<u8>|
        (tree_has_path(s, q) || q == m.path) implies #[trigger] tree_has_path(c, q) by {
        if tree_has_path(s, q) {
            let si = choose|si: int| 0 <= si < s.len() && #[trigger] s[si].path == q;
            assert(c[si].path == q);
        } else {
            assert(c[s.len() as int].path == q);
        }
    }
    lemma_unique_index(c, s.len() as int, m.path);
    assert forall|q: Seq<u8>|
        tree_has_path(s, q) implies tree_node(c, q) == #[trigger] tree_node(s, q) by {
        let si = tree_index_of(s, q);
        assert(s[si].path == q);
        lemma_unique_index(c, si, q);
        assert(tree_node(c, q) == c[si].node);
    }
}

/// A path's component prefixes that are directories already make its
/// creation a pure append.
proof fn lemma_mkdir_upto_id(out: Seq<TreeEntryModel>, p: Seq<u8>, k: int)
    requires
        forall|c: int|
            0 <= c < p.len() && #[trigger] p[c] == SLASH ==> dir_at(out, p.subrange(0, c)),
        0 <= k < p.len(),
    ensures
        crate::apply::mkdir_upto(out, p, k) == Option::Some(out),
    decreases k,
{
    if k > 0 {
        lemma_mkdir_upto_id(out, p, k - 1);
        if p[k] == SLASH {
            assert(dir_at(out, p.subrange(0, k)));
        }
    }
}

/// Creating a directory whose ancestors stand and whose path is free is
/// exactly one push.
proof fn lemma_mkdir_plain(out: Seq<TreeEntryModel>, p: Seq<u8>)
    requires
        p.len() > 0,
        forall|c: int|
            0 <= c < p.len() && #[trigger] p[c] == SLASH ==> dir_at(out, p.subrange(0, c)),
        !tree_has_path(out, p),
    ensures
        crate::apply::spec_mkdir_all(out, p) == Option::Some(
            out.push(TreeEntryModel { path: p, node: NodeModel::Dir }),
        ),
{
    if p.len() > 1 {
        lemma_mkdir_upto_id(out, p, p.len() - 1);
    } else {
        assert(crate::apply::mkdir_upto(out, p, 0) == Option::Some(out));
    }
    assert(crate::apply::mkdir_upto(out, p, p.len() - 1) == Option::Some(out));
    assert(p.subrange(0, p.len() as int) =~= p);
    assert(crate::apply::ensure_dir(out, p) == Option::Some(
        out.push(TreeEntryModel { path: p, node: NodeModel::Dir }),
    ));
    assert(crate::apply::spec_mkdir_all(out, p) == crate::apply::ensure_dir(
        out,
        p.subrange(0, p.len() as int),
    ));
}

/// Has delta entry `j` been consumed once the whole old tree is processed?
pub open spec fn consumed_final(old: Seq<TreeEntryModel>, new: Seq<TreeEntryModel>, j: int) -> bool {
    consumed_at(old, new, j, old.len() as int)
}

/// The created output after the first `j` delta entries.
pub open spec fn out2(old: Seq<TreeEntryModel>, new: Seq<TreeEntryModel>, j: int) -> Seq<
    TreeEntryModel,
>
    decreases j,
{
    if j <= 0 {
        p3_out(old, new, old.len() as int)
    } else if j <= new.len() && !consumed_final(old, new, j - 1) {
        out2(old, new, j - 1).push(new_entry_at(new, new[j - 1].path))
    } else {
        out2(old, new, j - 1)
    }
}

/// A path is in the created output exactly when it was kept or created.
pub open spec fn in_out2(
    old: Seq<TreeEntryModel>,
    new: Seq<TreeEntryModel>,
    q: Seq<u8>,
    j: int,
) -> bool {
    ||| exists|k: int|
        0 <= k < old.len() && (#[trigger] old[k]).path == q && kept_at(old, new, k)
    ||| exists|t: int|
        0 <= t < j && (#[trigger] new[t]).path == q && !consumed_final(old, new, t)
}

/// Contents of the output as the create phase proceeds.
proof fn lemma_out2_contents(old: Seq<TreeEntryModel>, new: Seq<TreeEntryModel>, j: int)
    requires
        tree_wf(old),
        tree_wf(new),
        0 <= j <= new.len(),
    ensures
        paths_unique(out2(old, new, j)),
        forall|q: Seq<u8>|
            #[trigger] tree_has_path(out2(old, new, j), q) <==> in_out2(old, new, q, j),
        forall|q: Seq<u8>|
            #[trigger] tree_has_path(out2(old, new, j), q) ==> tree_node(out2(old, new, j), q)
                == tree_node(new, q),
    decreases j,
{
    if j == 0 {
        lemma_p3_out_contents(old, new, old.len() as int);
    } else {
        lemma_out2_contents(old, new, j - 1);
        let prev = out2(old, new, j - 1);
        let cur = out2(old, new, j);
        let p = new[j - 1].path;
        if consumed_final(old, new, j - 1) {
            assert(cur == prev);
            assert forall|q: Seq<u8>|
                in_out2(old, new, q, j) implies in_out2(old, new, q, j - 1) by {
                if !(exists|k: int|
                    0 <= k < old.len() && (#[trigger] old[k]).path == q && kept_at(old, new, k)) {
                    let t = choose|t: int|
                        0 <= t < j && (#[trigger] new[t]).path == q && !consumed_final(
                            old,
                            new,
                            t,
                        );
                    assert(t < j - 1);
                }
            }
        } else {
            assert(cur == prev.push(new_entry_at(new, p)));
            lemma_unique_index(new, j - 1, p);
            assert(!tree_has_path(prev, p)) by {
                if in_out2(old, new, p, j - 1) {
                    if exists|k: int|
                        0 <= k < old.len() && (#[trigger] old[k]).path == p && kept_at(
                            old,
                            new,
                            k,
                        ) {
                        let k = choose|k: int|
                            0 <= k < old.len() && (#[trigger] old[k]).path == p && kept_at(
                                old,
                                new,
                                k,
                            );
                        assert(tree_node(new, p) == new[j - 1].node);
                        if old[k].node is Dir {
                            assert(dir_at(new, p));
                            assert(new[j - 1].node is Dir);
                        } else {
                            assert(file_at(new, p));
                            assert(!(new[j - 1].node is Dir));
                        }
                        assert(consumed_final(old, new, j - 1));
                    } else {
                        let t = choose|t: int|
                            0 <= t < j - 1 && (#[trigger] new[t]).path == p && !consumed_final(
                                old,
                                new,
                                t,
                            );
                        assert(new[t].path == new[j - 1].path);
                    }
                }
            }
            lemma_tree_push(prev, new_entry_at(new, p));
            assert(new_entry_at(new, p).node == tree_node(new, p));
            assert forall|q: Seq<u8>|
                #[trigger] tree_has_path(cur, q) implies in_out2(old, new, q, j) by {
                if tree_has_path(prev, q) {
                    assert(in_out2(old, new, q, j - 1));
                    if exists|t: int|
                        0 <= t < j - 1 && (#[trigger] new[t]).path == q && !consumed_final(
                            old,
                            new,
                            t,
                        ) {
                        let t = choose|t: int|
                            0 <= t < j - 1 && (#[trigger] new[t]).path == q && !consumed_final(
                                old,
                                new,
                                t,
                            );
                        assert(0 <= t < j && new[t].path == q && !consumed_final(old, new, t));
                    }
                } else {
                    assert(q == p);
                    assert(0 <= j - 1 < j && new[j - 1].path == q && !consumed_final(
                        old,
                        new,
                        j - 1,
                    ));
                }
            }
            assert forall|q: Seq<u8>|
                in_out2(old, new, q, j) implies #[trigger] tree_has_path(cur, q) by {
                if !tree_has_path(prev, q) {
                    if exists|k: int|
                        0 <= k < old.len() && (#[trigger] old[k]).path == q && kept_at(
                            old,
                            new,
                            k,
                        ) {
                        assert(in_out2(old, new, q, j - 1));
                    } else {
                        let t = choose|t: int|
                            0 <= t < j && (#[trigger] new[t]).path == q && !consumed_final(
                                old,
                                new,
                                t,
                            );
                        if t < j - 1 {
                            assert(in_out2(old, new, q, j - 1));
                        } else {
                            assert(q == p);
                        }
                    }
                }
            }
        }
    }
}


/// One create step moves the output from `j` to `j + 1` delta entries.
#[verifier::rlimit(100)]
proof fn lemma_p3_phase2_step(old: Seq<TreeEntryModel>, new: Seq<TreeEntryModel>, j: int)
    requires
        tree_wf(old),
        tree_wf(new),
        identicals_have_preimage(old, new),
        0 <= j < new.len(),
    ensures
        phase2_step(
            Phase2 { out: out2(old, new, j), errors: Seq::<Seq<u8>>::empty(), failed: false },
            spec_build(old, new)[j],
            consumed_final(old, new, j),
        ) == (Phase2 {
            out: out2(old, new, j + 1),
            errors: Seq::<Seq<u8>>::empty(),
            failed: false,
        }),
{
    let diff = spec_build(old, new);
    let p = new[j].path;
    let cur = out2(old, new, j);
    lemma_diff_shape(old, new);
    assert(diff[j] == build_entry(old, new[j]));
    if !consumed_final(old, new, j) {
        lemma_out2_contents(old, new, j);
        lemma_unique_index(new, j, p);
        assert(tree_node(new, p) == new[j].node);
        assert(!tree_has_path(cur, p)) by {
            if in_out2(old, new, p, j) {
                if exists|k: int|
                    0 <= k < old.len() && (#[trigger] old[k]).path == p && kept_at(old, new, k) {
                    let k = choose|k: int|
                        0 <= k < old.len() && (#[trigger] old[k]).path == p && kept_at(
                            old,
                            new,
                            k,
                        );
                    if old[k].node is Dir {
                        assert(dir_at(new, p));
                        assert(new[j].node is Dir);
                    } else {
                        assert(file_at(new, p));
                        assert(!(new[j].node is Dir));
                    }
                    assert(consumed_final(old, new, j));
                } else {
                    let t = choose|t: int|
                        0 <= t < j && (#[trigger] new[t]).path == p && !consumed_final(
                            old,
                            new,
                            t,
                        );
                    assert(new[t].path == new[j].path);
                    assert(false);
                }
            }
        }
        assert forall|c: int|
            0 <= c < p.len() && #[trigger] p[c] == SLASH implies dir_at(
            cur,
            p.subrange(0, c),
        ) by {
            let a = p.subrange(0, c);
            assert(has_dir_before(new, j, a));
            let jp = choose|jp: int|
                0 <= jp < j && #[trigger] new[jp].path == a && new[jp].node is Dir;
            lemma_unique_index(new, jp, a);
            assert(tree_node(new, a) == new[jp].node);
            assert(dir_at(new, a));
            assert(in_out2(old, new, a, j)) by {
                if dir_at(old, a) {
                    let k = tree_index_of(old, a);
                    assert(old[k].path == a);
                    assert(old[k].node == tree_node(old, a));
                    assert(kept_at(old, new, k));
                    assert(0 <= k < old.len() && old[k].path == a && kept_at(old, new, k));
                } else {
                    assert(!consumed_final(old, new, jp)) by {
                        if consumed_final(old, new, jp) {
                            let k = choose|k: int|
                                0 <= k < old.len() && (#[trigger] old[k]).path == new[jp].path && (
                                old[k].node is Dir <==> new[jp].node is Dir);
                            lemma_unique_index(old, k, a);
                            assert(tree_node(old, a) == old[k].node);
                        }
                    }
                    assert(0 <= jp < j && new[jp].path == a && !consumed_final(old, new, jp));
                }
            }
            assert(tree_has_path(cur, a));
            assert(tree_node(cur, a) == tree_node(new, a));
        }
        match new[j].node {
            NodeModel::Dir => {
                assert(diff[j] == DiffEntryModel::Dir { path: p });
                assert(is_normalized_path(p)) by {
                    assert(tree_wf(new));
                }
                lemma_mkdir_plain(cur, p);
                assert(new_entry_at(new, p) == TreeEntryModel { path: p, node: NodeModel::Dir });
            },
            NodeModel::File { data: nd, executable: nex } => {
                let ob = file_bytes_at(old, p);
                if rapid_hash_of(nd) == rapid_hash_of(ob) {
                    assert(file_at(old, p));
                    let k = tree_index_of(old, p);
                    assert(old[k].path == p);
                    assert(old[k].node == tree_node(old, p));
                    assert(consumed_final(old, new, j)) by {
                        assert(0 <= k < old.len() && old[k].path == new[j].path && (old[
                            k].node is Dir <==> new[j].node is Dir));
                    }
                    assert(false);
                } else if ob.len() > 0 {
                    assert(tree_has_path(old, p) && tree_node(old, p) is File);
                    let k = tree_index_of(old, p);
                    assert(old[k].path == p);
                    assert(old[k].node == tree_node(old, p));
                    assert(consumed_final(old, new, j)) by {
                        assert(0 <= k < old.len() && old[k].path == new[j].path && (old[
                            k].node is Dir <==> new[j].node is Dir));
                    }
                    assert(false);
                } else {
                    assert(diff[j] == DiffEntryModel::File {
                        path: p,
                        state: StateModel::Raw(nd),
                        flags: Option::Some(nex),
                    });
                    assert(crate::apply::parents_present(cur, p));
                    assert(crate::apply::spec_write_file(cur, p, nd, Option::Some(nex))
                        == Option::Some(cur.push(
                        TreeEntryModel { path: p, node: NodeModel::File { data: nd, executable: nex } },
                    )));
                    assert(new_entry_at(new, p) == TreeEntryModel {
                        path: p,
                        node: NodeModel::File { data: nd, executable: nex },
                    });
                }
            },
        }
    }
}

/// Running the create phase from `j` on reaches the final output.
proof fn lemma_p3_phase2_run(old: Seq<TreeEntryModel>, new: Seq<TreeEntryModel>, j: int)
    requires
        tree_wf(old),
        tree_wf(new),
        identicals_have_preimage(old, new),
        0 <= j <= new.len(),
    ensures
        phase2_run(
            Phase2 { out: out2(old, new, j), errors: Seq::<Seq<u8>>::empty(), failed: false },
            spec_build(old, new),
            p3_state(old, new, old.len() as int).used,
            j,
        ) == (Phase2 {
            out: out2(old, new, new.len() as int),
            errors: Seq::<Seq<u8>>::empty(),
            failed: false,
        }),
    decreases new.len() - j,
{
    lemma_diff_shape(old, new);
    let used = p3_state(old, new, old.len() as int).used;
    if j < new.len() {
        assert(used[j] == consumed_final(old, new, j));
        lemma_p3_phase2_step(old, new, j);
        lemma_p3_phase2_run(old, new, j + 1);
    }
}

/// Diff round trip: applying the delta built from a well-formed old tree
/// to a well-formed new tree back onto the old tree, deleting what the
/// delta does not name, succeeds with no skipped paths and yields a tree
/// whose paths, contents and executable bits are exactly the new tree's.
///
/// The hypotheses rule out the accepted hash risk: no content hash
/// collision between corresponding files, and every file the delta would
/// mark identical has a real file pre-image in the old tree.
pub proof fn lemma_diff_round_trip(old: Seq<TreeEntryModel>, new: Seq<TreeEntryModel>)
    requires
        tree_wf(old),
        tree_wf(new),
        no_collisions(old, new),
        identicals_have_preimage(old, new),
        patch_entries_apply(old, new, new.len() as int),
    ensures
        spec_apply(spec_build(old, new), old, true) is Some,
        tree_map(spec_apply(spec_build(old, new), old, true)->Some_0.0) == tree_map(new),
        spec_apply(spec_build(old, new), old, true)->Some_0.1 == Seq::<Seq<u8>>::empty(),
{
    let diff = spec_build(old, new);
    let n = new.len() as int;
    lemma_diff_shape(old, new);
    assert(phase1_init(diff.len()) == p3_state(old, new, 0)) by {
        assert(phase1_init(diff.len()).used =~= p3_state(old, new, 0).used);
        assert(phase1_init(diff.len()).out =~= p3_state(old, new, 0).out);
        assert(phase1_init(diff.len()).removed =~= p3_state(old, new, 0).removed);
    }
    assert(old.skip(0) =~= old);
    lemma_p3_phase1_run(old, new, 0);
    let st1 = phase1_run(diff, true, phase1_init(diff.len()), old);
    assert(st1 == p3_state(old, new, old.len() as int));
    assert(st1.out == out2(old, new, 0));
    lemma_p3_phase2_run(old, new, 0);
    let st2 = phase2_run(
        Phase2 { out: st1.out, errors: Seq::<Seq<u8>>::empty(), failed: false },
        diff,
        st1.used,
        0,
    );
    assert(st2.out == out2(old, new, n));
    assert(spec_apply(diff, old, true) == Option::Some((out2(old, new, n), Seq::<Seq<u8>>::empty())));
    lemma_out2_contents(old, new, n);
    let res = out2(old, new, n);
    assert forall|q: Seq<u8>| #[trigger] tree_has_path(res, q) implies tree_has_path(new, q) by {
        if exists|k: int|
            0 <= k < old.len() && (#[trigger] old[k]).path == q && kept_at(old, new, k) {
            let k = choose|k: int|
                0 <= k < old.len() && (#[trigger] old[k]).path == q && kept_at(old, new, k);
        } else {
            let t = choose|t: int|
                0 <= t < n && (#[trigger] new[t]).path == q && !consumed_final(old, new, t);
        }
    }
    assert forall|q: Seq<u8>| #[trigger] tree_has_path(new, q) implies tree_has_path(res, q) by {
        let t = tree_index_of(new, q);
        assert(new[t].path == q);
        if consumed_final(old, new, t) {
            let k = choose|k: int|
                0 <= k < old.len() && (#[trigger] old[k]).path == new[t].path && (old[
                k].node is Dir <==> new[t].node is Dir);
            lemma_unique_index(old, k, q);
            assert(tree_node(old, q) == old[k].node);
            assert(tree_node(new, q) == new[t].node);
            assert(kept_at(old, new, k)) by {
                if old[k].node is Dir {
                    assert(dir_at(new, q));
                } else {
                    assert(file_at(new, q));
                }
            }
            assert(in_out2(old, new, q, n)) by {
                assert(0 <= k < old.len() && old[k].path == q && kept_at(old, new, k));
            }
        } else {
            assert(in_out2(old, new, q, n)) by {
                assert(0 <= t < n && new[t].path == q && !consumed_final(old, new, t));
            }
        }
    }
    assert(tree_map(res) =~= tree_map(new)) by {
        assert(tree_map(res).dom() =~= tree_map(new).dom());
        assert forall|q: Seq<u8>| #[trigger] tree_map(res).dom().contains(q) implies tree_map(
            res,
        )[q] == tree_map(new)[q] by {
            assert(tree_has_path(res, q));
            assert(tree_node(res, q) == tree_node(new, q));
        }
    }
}

} // verus!
