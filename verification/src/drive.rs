use vstd::prelude::*;
use std::sync::Arc;
use crate::db::InMemoryStore;
use crate::iso::IsoFilePathFactory;
use crate::meta::DiskMetadata;
use crate::path::{is_strict_prefix, SegPath};
use crate::rules::IndexerRuler;
use crate::task::{arc_clone_path, arc_clone_ruler, WalkDirTask, WalkOutput, WalkerStage};
use crate::walker::{assessed_views, pair_views, paths_views, towalk_views, walking_views, ToWalkEntry};

verus! {

/// One filesystem entry as a snapshot records it: its absolute path (as
/// components) and what a stat observed.
pub struct FsEntryInfo {
    pub path: SegPath,
    pub metadata: DiskMetadata,
}

/// A filesystem tree captured as plain data: the walk over it needs no
/// I/O, so the whole recursive walk runs inside the library.
pub struct FsSnapshot {
    pub entries: Vec<FsEntryInfo>,
}

/// The views of snapshot entries.
pub open spec fn entry_views(s: Seq<FsEntryInfo>) -> Seq<(Seq<Seq<char>>, DiskMetadata)> {
    Seq::new(s.len(), |i: int| (s[i].path@, s[i].metadata))
}

/// `p` is a direct child of `dir`.
pub open spec fn is_child_path(dir: Seq<Seq<char>>, p: Seq<Seq<char>>) -> bool {
    p.len() == dir.len() + 1 && p.subrange(0, dir.len() as int) == dir
}

/// The direct children of a directory, in snapshot order.
pub open spec fn children_of_spec(
    sv: Seq<(Seq<Seq<char>>, DiskMetadata)>,
    dir: Seq<Seq<char>>,
) -> Seq<(Seq<Seq<char>>, DiskMetadata)>
    decreases sv.len(),
{
    if sv.len() == 0 {
        Seq::<(Seq<Seq<char>>, DiskMetadata)>::empty()
    } else {
        let rest = children_of_spec(sv.drop_last(), dir);
        if is_child_path(dir, sv.last().0) {
            rest.push(sv.last())
        } else {
            rest
        }
    }
}

/// The names of a directory's child directories, in snapshot order.
pub open spec fn child_dir_names_spec(
    sv: Seq<(Seq<Seq<char>>, DiskMetadata)>,
    dir: Seq<Seq<char>>,
) -> Seq<Seq<char>>
    decreases sv.len(),
{
    if sv.len() == 0 {
        Seq::<Seq<char>>::empty()
    } else {
        let rest = child_dir_names_spec(sv.drop_last(), dir);
        let (p, m) = sv.last();
        if is_child_path(dir, p) && m.is_dir && !m.is_symlink {
            rest.push(p.last())
        } else {
            rest
        }
    }
}

impl FsSnapshot {
    /// Lists a directory: its direct children with their metadata, the
    /// snapshot's stand-in for reading the directory and stat'ing every
    /// entry.
    pub fn children_of(&self, dir: &SegPath) -> (r: Vec<(SegPath, DiskMetadata)>)
        ensures
            pair_views(r@) == children_of_spec(entry_views(self.entries@), dir@),
            forall|i: int| 0 <= i < r@.len() ==> is_child_path(dir@, (#[trigger] r@[i]).0@),
    {
        let mut out: Vec<(SegPath, DiskMetadata)> = Vec::new();
        let mut k: usize = 0;
        proof {
            assert(pair_views(out@) =~= children_of_spec(
                entry_views(self.entries@.subrange(0, 0)),
                dir@,
            ));
        }
        while k < self.entries.len()
            invariant
                k <= self.entries@.len(),
                pair_views(out@) == children_of_spec(
                    entry_views(self.entries@.subrange(0, k as int)),
                    dir@,
                ),
                forall|i: int| 0 <= i < out@.len() ==> is_child_path(dir@, (#[trigger] out@[i]).0@),
            decreases self.entries@.len() - k,
        {
            let ghost pre = entry_views(self.entries@.subrange(0, k as int));
            let ghost post = entry_views(self.entries@.subrange(0, (k + 1) as int));
            proof {
                assert(post.drop_last() =~= pre);
                assert(post.last() == (self.entries@[k as int].path@,
                self.entries@[k as int].metadata));
            }
            let e = &self.entries[k];
            let is_child = if e.path.len() == 0 {
                false
            } else if e.path.len() - 1 != dir.len() {
                false
            } else {
                dir.is_strict_prefix_of(&e.path)
            };
            proof {
                if is_child {
                    assert(e.path@.subrange(0, dir@.len() as int) == dir@);
                    assert(is_child_path(dir@, e.path@));
                } else {
                    assert(!is_child_path(dir@, e.path@));
                }
            }
            if is_child {
                out.push((e.path.duplicate(), e.metadata));
                proof {
                    assert(pair_views(out@) =~= children_of_spec(post, dir@));
                }
            } else {
                proof {
                    assert(pair_views(out@) =~= children_of_spec(post, dir@));
                }
            }
            k = k + 1;
        }
        proof {
            assert(self.entries@.subrange(0, self.entries@.len() as int) =~= self.entries@);
        }
        out
    }

    /// The names of a directory's child directories, for the
    /// children-presence rules.
    pub fn child_dir_names(&self, dir: &SegPath) -> (r: Vec<String>)
        ensures
            r.deep_view() == child_dir_names_spec(entry_views(self.entries@), dir@),
    {
        let mut out: Vec<String> = Vec::new();
        let mut k: usize = 0;
        proof {
            assert(out.deep_view() =~= child_dir_names_spec(
                entry_views(self.entries@.subrange(0, 0)),
                dir@,
            ));
        }
        while k < self.entries.len()
            invariant
                k <= self.entries@.len(),
                out.deep_view() == child_dir_names_spec(
                    entry_views(self.entries@.subrange(0, k as int)),
                    dir@,
                ),
            decreases self.entries@.len() - k,
        {
            let ghost pre = entry_views(self.entries@.subrange(0, k as int));
            let ghost post = entry_views(self.entries@.subrange(0, (k + 1) as int));
            proof {
                assert(post.drop_last() =~= pre);
                assert(post.last() == (self.entries@[k as int].path@,
                self.entries@[k as int].metadata));
            }
            let e = &self.entries[k];
            let is_child = if e.path.len() == 0 {
                false
            } else if e.path.len() - 1 != dir.len() {
                false
            } else {
                dir.is_strict_prefix_of(&e.path)
            };
            proof {
                if is_child {
                    assert(e.path@.subrange(0, dir@.len() as int) == dir@);
                    assert(is_child_path(dir@, e.path@));
                } else {
                    assert(!is_child_path(dir@, e.path@));
                }
            }
            if is_child && e.metadata.is_dir && !e.metadata.is_symlink {
                let ghost prev = out.deep_view();
                out.push(e.path.name().clone());
                proof {
                    assert(out.deep_view() =~= prev.push(e.path@.last()));
                    assert(out.deep_view() =~= child_dir_names_spec(post, dir@));
                }
            } else {
                proof {
                    assert(out.deep_view() =~= child_dir_names_spec(post, dir@));
                }
            }
            k = k + 1;
        }
        proof {
            assert(self.entries@.subrange(0, self.entries@.len() as int) =~= self.entries@);
        }
        out
    }

    /// An upper bound on every entry path's component count, plus one:
    /// enough recursion budget to reach every directory.
    pub fn depth_budget(&self) -> (r: usize)
        ensures
            forall|i: int|
                0 <= i < self.entries@.len() ==> (#[trigger] self.entries@[i]).path@.len()
                    < r || r == usize::MAX,
    {
        let mut best: usize = 0;
        let mut k: usize = 0;
        while k < self.entries.len()
            invariant
                k <= self.entries@.len(),
                forall|i: int|
                    0 <= i < k ==> (#[trigger] self.entries@[i]).path@.len() < best || best
                        == usize::MAX,
            decreases self.entries@.len() - k,
        {
            let l = self.entries[k].path.len();
            if l >= best {
                if l == usize::MAX {
                    best = usize::MAX;
                } else {
                    best = l + 1;
                }
            }
            k = k + 1;
        }
        best
    }
}

/// Drives one task from `Start` to its terminal output against the
/// snapshot and the store, appending its output and, recursively, the
/// outputs of every spawned child, depth-first. `depth` bounds the
/// recursion; the caller passes a budget that covers the snapshot.
///
/// When no rules are configured, the store is empty, the identity factory
/// is rooted at the walk root and the budget covers the subtree, what
/// this walk and its children create is exactly the recursive listing
/// below the walked directory.
#[verifier::rlimit(100)]
pub fn run_task(
    snapshot: &FsSnapshot,
    task: WalkDirTask,
    store: &InMemoryStore,
    depth: usize,
    outputs: &mut Vec<WalkOutput>,
)
    requires
        task.wf(),
        task.stage is Start,
        store.wf(),
    ensures
        final(outputs)@.len() >= old(outputs)@.len(),
        forall|i: int|
            0 <= i < old(outputs)@.len() ==> final(outputs)@[i] == old(outputs)@[i],
        no_rules_walk_pre(entry_views(snapshot.entries@), task, *store, depth as int)
            ==> walk_creates_exactly(
            old(outputs)@,
            final(outputs)@,
            entry_views(snapshot.entries@),
            task.root@,
            task.entry.path@,
        ),
    decreases depth,
{
    let ghost sv = entry_views(snapshot.entries@);
    let ghost task0 = task;
    let ghost pre_holds = no_rules_walk_pre(sv, task0, *store, depth as int);
    if depth == 0 {
        proof {
            if pre_holds {
                assert forall|p: Seq<Seq<char>>|
                    #![trigger created_in_outputs(outputs@, task0.root@, p)]
                    #![trigger reachable(sv, task0.root@, p)]
                    created_in_outputs(outputs@, task0.root@, p) <==> (created_in_outputs(
                        outputs@,
                        task0.root@,
                        p,
                    ) || (reachable(sv, task0.root@, p) && is_strict_prefix(
                        task0.entry.path@,
                        p,
                    ))) by {
                    if reachable(sv, task0.root@, p) && is_strict_prefix(task0.entry.path@, p) {
                        // the budget hypothesis leaves no room below the
                        // walked directory
                        assert(p.len() < task0.entry.path@.len() + 0);
                        assert(false);
                    }
                }
                assert(walk_creates_exactly(outputs@, outputs@, sv, task0.root@, task0.entry.path@));
            }
        }
        return ;
    }
    let mut task = task;
    task.begin_walking();
    let children = snapshot.children_of(&task.entry.path);
    let mut stats: Vec<Result<DiskMetadata, String>> = Vec::new();
    let mut child_name_lists: Vec<Vec<String>> = Vec::new();
    let mut k: usize = 0;
    let ghost rootv = task.root@;
    let ghost entryv = task.entry.path@;
    while k < children.len()
        invariant
            k <= children@.len(),
            task.wf(),
            task.stage is Walking,
            rootv == task.root@,
            entryv == task.entry.path@,
            task.indexer_ruler == task0.indexer_ruler,
            task.iso_file_path_factory == task0.iso_file_path_factory,
            task.entry == task0.entry,
            task.root == task0.root,
            task.has_dispatcher == task0.has_dispatcher,
            crate::walker::iso_buildable(rootv, entryv),
            forall|i: int| 0 <= i < children@.len() ==> is_child_path(entryv, (#[trigger] children@[i]).0@),
            stats@.len() == k,
            forall|i: int|
                0 <= i < k ==> (#[trigger] stats@[i]) == Ok::<DiskMetadata, String>(
                    children@[i].1,
                ),
            child_name_lists@.len() == k,
            task.stage matches WalkerStage::Walking { found_paths } && found_paths@.len() == k
                && forall|i: int|
                0 <= i < k ==> (#[trigger] task.stage->Walking_found_paths@[i])@
                    == children@[i].0@,
        decreases children@.len() - k,
    {
        let (p, m) = &children[k];
        proof {
            assert(is_child_path(entryv, p@));
            lemma_child_under_root(rootv, entryv, p@);
        }
        task.push_found_path(p.duplicate());
        stats.push(Ok(*m));
        if m.is_dir && !m.is_symlink {
            child_name_lists.push(snapshot.child_dir_names(p));
        } else {
            child_name_lists.push(Vec::new());
        }
        k = k + 1;
    }
    task.finish_walking();
    let ghost found0 = task.stage->CollectingMetadata_found_paths@;
    let ghost stats0 = stats@;
    task.collect_metadata_results(stats);
    let ghost pairs_cv = children_of_spec(sv, entryv);
    proof {
        // every stat succeeded, so the surviving pairs are exactly the
        // listed children
        let pv = paths_views(found0);
        let stv = crate::walker::stat_views(stats0);
        assert(pv.len() == children@.len());
        assert(stv.len() == children@.len());
        assert forall|i: int| 0 <= i < stv.len() implies (#[trigger] stv[i]) is Ok by {
            assert(stats0[i] == Ok::<DiskMetadata, String>(children@[i].1));
        }
        lemma_collected_all_ok(pv, stv);
        assert(crate::walker::collected_of(pv, stv) =~= crate::walker::pair_views(children@)) by {
            assert forall|i: int|
                0 <= i < children@.len() implies crate::walker::collected_of(pv, stv)[i]
                == (children@[i].0@, children@[i].1) by {
                assert(pv[i] == found0[i]@);
                assert(stv[i] == Ok::<DiskMetadata, Seq<char>>(children@[i].1));
            }
        }
    }
    let n_pairs = match &task.stage {
        WalkerStage::CheckingIndexerRules { paths_and_metadatas } => paths_and_metadatas.len(),
        _ => 0,
    };
    let child_name_lists = adjust_name_lists(child_name_lists, n_pairs);
    let ghost names_dv = child_name_lists.deep_view();
    task.check_indexer_rules(child_name_lists);
    let ghost assessed_v = assessed_views(task.stage->ProcessingRulesResults_paths_metadatas_and_acceptance@);
    proof {
        if pre_holds {
            assert(task.indexer_ruler.rules@ =~= Seq::<crate::rules::IndexerRule>::empty());
            assert(assessed_v == crate::walker::assessed_of(
                pairs_cv,
                names_dv,
                Seq::<crate::rules::IndexerRule>::empty(),
            ));
            crate::laws::lemma_no_rules_accepts_everything(pairs_cv, names_dv, entryv);
        }
    }
    task.process_rules();
    let ghost accepted_v = pair_views(task.stage->GatheringFilePathsToRemove_accepted_paths@);
    let ghost qv = towalk_views(
        task.stage->GatheringFilePathsToRemove_maybe_to_keep_walking->Some_0@,
    );
    proof {
        if pre_holds {
            assert(accepted_v == crate::laws::non_symlinks_of(pairs_cv));
            assert(qv == crate::laws::all_dirs_queued(
                pairs_cv,
                crate::walker::ChildrenAcceptance::Unknown,
                entryv,
            ));
        }
    }
    let keys = task.removal_query_keys();
    let removal = store.fetch_file_paths_to_remove(&task.entry_iso_file_path, &keys);
    task.gather_file_paths_to_remove(Ok(removal));
    let existing = store.fetch_file_paths(&keys);
    proof {
        if pre_holds {
            assert(crate::db::rec_views(store.records@) =~= Seq::<crate::db::RecView>::empty());
            assert(crate::db::rec_views(existing@) =~= Seq::<crate::db::RecView>::empty());
        }
    }
    let ghost taskf = task;
    let ghost ws = walking_views(task.stage->Finalize_walking_entries@);
    let mut out = match task.finalize(Ok(existing)) {
        Ok(out) => out,
        Err(_) => {
            proof {
                assert(false);
            }
            return ;
        },
    };
    let ghost loc = taskf.iso_file_path_factory.location_id as int;
    proof {
        if pre_holds {
            // the store is empty, so every walking entry is a create
            assert(crate::task::finalize_post(taskf, crate::db::rec_views(existing@), out));
            assert(ws == crate::walker::built_of(accepted_v, rootv, loc));
            lemma_creates_of_empty(ws);
            assert(crate::walker::creates_of(ws, crate::db::rec_views(existing@)) == ws);
            assert(out.to_create@.len() == ws.len());
        }
    }
    let mut kids: Vec<WalkDirTask> = Vec::new();
    std::mem::swap(&mut kids, &mut out.child_tasks);
    let ghost kids0 = kids@;
    let ghost kidpaths = Seq::new(kids0.len(), |i: int| kids0[i].entry.path@);
    proof {
        if pre_holds {
            // every queued directory is buildable, so each became a task
            assert forall|i: int|
                0 <= i < qv.len() implies crate::walker::iso_buildable(
                rootv,
                (#[trigger] qv[i]).path,
            ) by {
                lemma_dirs_queued_member_fwd(
                    pairs_cv,
                    crate::walker::ChildrenAcceptance::Unknown,
                    entryv,
                    i,
                );
                let j = choose|j: int|
                    0 <= j < pairs_cv.len() && (#[trigger] pairs_cv[j]).0 == qv[i].path
                        && pairs_cv[j].1.is_dir && !pairs_cv[j].1.is_symlink;
                lemma_children_member_fwd(sv, entryv, j);
                lemma_child_under_root(rootv, entryv, qv[i].path);
            }
            lemma_dispatched_identity(qv, rootv);
            assert(kids0.len() == qv.len());
            assert forall|i: int|
                0 <= i < kids0.len() implies (#[trigger] kidpaths[i]) == qv[i].path
                    && is_child_path(entryv, kidpaths[i]) && dir_entry(sv, kidpaths[i]) by {
                assert(crate::task::is_child_task_of(
                    kids0[i],
                    qv[i],
                    taskf.root,
                    taskf.indexer_ruler,
                    taskf.iso_file_path_factory,
                ));
                lemma_dirs_queued_member_fwd(
                    pairs_cv,
                    crate::walker::ChildrenAcceptance::Unknown,
                    entryv,
                    i,
                );
                let j = choose|j: int|
                    0 <= j < pairs_cv.len() && (#[trigger] pairs_cv[j]).0 == qv[i].path
                        && pairs_cv[j].1.is_dir && !pairs_cv[j].1.is_symlink;
                lemma_children_member_fwd(sv, entryv, j);
                let jj = choose|jj: int|
                    0 <= jj < sv.len() && (#[trigger] sv[jj]) == pairs_cv[j] && is_child_path(
                        entryv,
                        sv[jj].0,
                    );
                assert(sv[jj].0 == qv[i].path && sv[jj].1.is_dir && !sv[jj].1.is_symlink);
            }
            // every child task meets the walk hypotheses one level down
            if pre_holds {
                assert forall|i: int|
                    0 <= i < kids0.len() implies no_rules_walk_pre(
                    sv,
                    #[trigger] kids0[i],
                    *store,
                    depth - 1,
                ) && kids0[i].root@ == rootv by {
                    assert(crate::task::is_child_task_of(
                        kids0[i],
                        qv[i],
                        taskf.root,
                        taskf.indexer_ruler,
                        taskf.iso_file_path_factory,
                    ));
                    assert(kids0[i].root == taskf.root);
                    assert(taskf.root@ == rootv);
                    lemma_dirs_queued_fields(
                        pairs_cv,
                        crate::walker::ChildrenAcceptance::Unknown,
                        entryv,
                        i,
                    );
                    lemma_child_scope_ok(sv, rootv, entryv, kidpaths[i]);
                    assert(subtree_bounded(sv, rootv, kidpaths[i], depth - 1)) by {
                        assert forall|p: Seq<Seq<char>>|
                            #[trigger] reachable(sv, rootv, p) && is_strict_prefix(kidpaths[i], p)
                                implies p.len() < kidpaths[i].len() + (depth - 1) by {
                            assert(is_strict_prefix(entryv, kidpaths[i]));
                            lemma_prefix_trans(entryv, kidpaths[i], p);
                            assert(p.len() < entryv.len() + depth);
                        }
                    }
                }
            }
            // what this walk itself created: exactly the non-symlink
            // children of the walked directory
            if pre_holds {
            assert forall|p: Seq<Seq<char>>|
                #![trigger nonsym_entry(sv, p)]
                #![trigger is_strict_prefix(rootv, p)]
                (is_strict_prefix(rootv, p) && exists|jj: int|
                    0 <= jj < out.to_create@.len() && (#[trigger] out.to_create@[jj])@.iso.1
                        == p.subrange(rootv.len() as int, p.len() as int)) <==> (is_child_path(
                    entryv,
                    p,
                ) && nonsym_entry(sv, p)) by {
                if is_strict_prefix(rootv, p) && exists|jj: int|
                    0 <= jj < out.to_create@.len() && (#[trigger] out.to_create@[jj])@.iso.1
                        == p.subrange(rootv.len() as int, p.len() as int) {
                    let jj = choose|jj: int|
                        0 <= jj < out.to_create@.len() && (#[trigger] out.to_create@[jj])@.iso.1
                            == p.subrange(rootv.len() as int, p.len() as int);
                    assert(out.to_create@[jj]@.iso == ws[jj].iso);
                    lemma_built_member_fwd(accepted_v, rootv, loc, jj);
                    let ai = choose|ai: int|
                        0 <= ai < accepted_v.len() && crate::walker::iso_buildable(
                            rootv,
                            (#[trigger] accepted_v[ai]).0,
                        ) && ws[jj].iso.1 == accepted_v[ai].0.subrange(
                            rootv.len() as int,
                            accepted_v[ai].0.len() as int,
                        );
                    lemma_nonsym_member_fwd(pairs_cv, ai);
                    let ci = choose|ci: int|
                        0 <= ci < pairs_cv.len() && (#[trigger] pairs_cv[ci]) == accepted_v[ai]
                            && !pairs_cv[ci].1.is_symlink;
                    lemma_children_member_fwd(sv, entryv, ci);
                    let svj = choose|svj: int|
                        0 <= svj < sv.len() && (#[trigger] sv[svj]) == pairs_cv[ci]
                            && is_child_path(entryv, sv[svj].0);
                    let c = accepted_v[ai].0;
                    lemma_child_under_root(rootv, entryv, c);
                    lemma_same_rel_same_path(rootv, p, c);
                    assert(sv[svj].0 == p && !sv[svj].1.is_symlink);
                    assert(nonsym_entry(sv, p));
                }
                if is_child_path(entryv, p) && nonsym_entry(sv, p) {
                    let svj = choose|svj: int|
                        0 <= svj < sv.len() && (#[trigger] sv[svj]).0 == p
                            && !sv[svj].1.is_symlink;
                    lemma_children_member_bwd(sv, entryv, svj);
                    let ci = choose|ci: int|
                        0 <= ci < pairs_cv.len() && #[trigger] pairs_cv[ci] == sv[svj];
                    lemma_nonsym_member_bwd(pairs_cv, ci);
                    let ai = choose|ai: int|
                        0 <= ai < accepted_v.len() && #[trigger] accepted_v[ai] == pairs_cv[ci];
                    lemma_child_under_root(rootv, entryv, p);
                    lemma_built_member_bwd(accepted_v, rootv, loc, ai);
                    let wi = choose|wi: int|
                        0 <= wi < ws.len() && (#[trigger] ws[wi]).iso.1 == accepted_v[ai].0.subrange(
                            rootv.len() as int,
                            accepted_v[ai].0.len() as int,
                        );
                    assert(out.to_create@[wi]@.iso == ws[wi].iso);
                    assert(out.to_create@[wi]@.iso.1 == p.subrange(
                        rootv.len() as int,
                        p.len() as int,
                    ));
                }
            }
            }
        }
    }
    let ghost before_push = outputs@;
    outputs.push(out);
    let ghost snap_out = outputs@;
    proof {
        if pre_holds {
            assert forall|p: Seq<Seq<char>>|
                #![trigger created_in_outputs(snap_out, rootv, p)]
                #![trigger nonsym_entry(sv, p)]
                created_in_outputs(snap_out, rootv, p) <==> (created_in_outputs(
                    before_push,
                    rootv,
                    p,
                ) || (is_strict_prefix(rootv, p) && is_child_path(entryv, p) && nonsym_entry(
                    sv,
                    p,
                ))) by {
                assert(snap_out =~= before_push.push(out));
                lemma_created_push(before_push, out, rootv, p);
                if is_child_path(entryv, p) && nonsym_entry(sv, p) {
                    lemma_child_under_root(rootv, entryv, p);
                }
            }
        }
    }
    let mut j: usize = 0;
    proof {
        if pre_holds {
            assert(crate::walker::iso_buildable(rootv, entryv));
            assert(dir_scope_ok(sv, rootv, entryv));
            assert(subtree_bounded(sv, rootv, entryv, depth as int));
            assert(kidpaths.len() == kids0.len());
            assert(forall|i: int|
                0 <= i < kids0.len() ==> (#[trigger] kidpaths[i]) == kids0[i].entry.path@
                    && is_child_path(entryv, kidpaths[i]) && dir_entry(sv, kidpaths[i]));
            assert(forall|i: int|
                0 <= i < kids0.len() ==> no_rules_walk_pre(
                    sv,
                    #[trigger] kids0[i],
                    *store,
                    depth - 1,
                ) && kids0[i].root@ == rootv);
            assert forall|q: Seq<Seq<char>>|
                is_child_path(entryv, q) && #[trigger] dir_entry(sv, q) implies exists|i: int|
                    0 <= i < kidpaths.len() && #[trigger] kidpaths[i] == q by {
                let svj = choose|svj: int|
                    0 <= svj < sv.len() && (#[trigger] sv[svj]).0 == q && sv[svj].1.is_dir
                        && !sv[svj].1.is_symlink;
                lemma_children_member_bwd(sv, entryv, svj);
                let ci = choose|ci: int|
                    0 <= ci < pairs_cv.len() && #[trigger] pairs_cv[ci] == sv[svj];
                lemma_dirs_queued_member_bwd(
                    pairs_cv,
                    crate::walker::ChildrenAcceptance::Unknown,
                    entryv,
                    ci,
                );
                let qi = choose|qi: int|
                    0 <= qi < qv.len() && (#[trigger] qv[qi]).path == q;
                assert(kidpaths[qi] == q);
            }
            assert(forall|p: Seq<Seq<char>>|
                #![trigger created_in_outputs(snap_out, rootv, p)]
                #![trigger nonsym_entry(sv, p)]
                created_in_outputs(snap_out, rootv, p) <==> (created_in_outputs(
                    old(outputs)@,
                    rootv,
                    p,
                ) || (is_strict_prefix(rootv, p) && is_child_path(entryv, p) && nonsym_entry(
                    sv,
                    p,
                ))));
            assert(forall|p: Seq<Seq<char>>|
                #![trigger created_in_outputs(outputs@, rootv, p)]
                created_in_outputs(outputs@, rootv, p) <==> (created_in_outputs(
                    snap_out,
                    rootv,
                    p,
                ) || covered_by_prefixes(kidpaths, 0, sv, rootv, p)));
        }
    }
    while j < kids.len()
        invariant
            j <= kids@.len(),
            kids@.len() == kids0.len(),
            depth >= 1,
            sv == entry_views(snapshot.entries@),
            store.wf(),
            forall|i: int|
                0 <= i < kids@.len() ==> (#[trigger] kids@[i]).wf() && kids@[i].stage is Start,
            forall|i: int| j <= i < kids0.len() ==> (#[trigger] kids@[i]) == kids0[i],
            outputs@.len() >= snap_out.len(),
            forall|i: int| 0 <= i < snap_out.len() ==> outputs@[i] == snap_out[i],
            snap_out.len() >= old(outputs)@.len(),
            forall|i: int| 0 <= i < old(outputs)@.len() ==> snap_out[i] == old(outputs)@[i],
            pre_holds ==> {
                &&& crate::walker::iso_buildable(rootv, entryv)
                &&& dir_scope_ok(sv, rootv, entryv)
                &&& subtree_bounded(sv, rootv, entryv, depth as int)
                &&& kidpaths.len() == kids0.len()
                &&& (forall|i: int|
                    0 <= i < kids0.len() ==> (#[trigger] kidpaths[i]) == kids0[i].entry.path@
                        && is_child_path(entryv, kidpaths[i]) && dir_entry(sv, kidpaths[i]))
                &&& (forall|i: int|
                    0 <= i < kids0.len() ==> no_rules_walk_pre(
                        sv,
                        #[trigger] kids0[i],
                        *store,
                        depth - 1,
                    ) && kids0[i].root@ == rootv)
                &&& (forall|q: Seq<Seq<char>>|
                    is_child_path(entryv, q) && #[trigger] dir_entry(sv, q) ==> exists|i: int|
                        0 <= i < kidpaths.len() && #[trigger] kidpaths[i] == q)
                &&& (forall|p: Seq<Seq<char>>|
                    #![trigger created_in_outputs(snap_out, rootv, p)]
                    #![trigger nonsym_entry(sv, p)]
                    created_in_outputs(snap_out, rootv, p) <==> (created_in_outputs(
                        old(outputs)@,
                        rootv,
                        p,
                    ) || (is_strict_prefix(rootv, p) && is_child_path(entryv, p) && nonsym_entry(
                        sv,
                        p,
                    ))))
                &&& (forall|p: Seq<Seq<char>>|
                    #![trigger created_in_outputs(outputs@, rootv, p)]
                    created_in_outputs(outputs@, rootv, p) <==> (created_in_outputs(
                        snap_out,
                        rootv,
                        p,
                    ) || covered_by_prefixes(kidpaths, j as int, sv, rootv, p)))
            },
        decreases kids@.len() - j,
    {
        proof {
            if pre_holds {
                assert(kids@[j as int] == kids0[j as int]);
            }
        }
        let kid = kids_take(&mut kids, j);
        let ghost before_kid = outputs@;
        run_task(snapshot, kid, store, depth - 1, outputs);
        proof {
            if pre_holds {
                assert(kid == kids0[j as int]);
                assert(no_rules_walk_pre(sv, kid, *store, (depth - 1) as int));
                assert(kid.root@ == rootv);
                assert(kid.entry.path@ == kidpaths[j as int]);
                assert(walk_creates_exactly(before_kid, outputs@, sv, kid.root@, kid.entry.path@));
                assert(walk_creates_exactly(before_kid, outputs@, sv, rootv, kidpaths[j as int]));
                assert forall|p: Seq<Seq<char>>|
                    #![trigger created_in_outputs(outputs@, rootv, p)]
                    created_in_outputs(outputs@, rootv, p) <==> (created_in_outputs(
                        snap_out,
                        rootv,
                        p,
                    ) || covered_by_prefixes(kidpaths, j + 1, sv, rootv, p)) by {
                    assert(created_in_outputs(outputs@, rootv, p) <==> (created_in_outputs(
                        before_kid,
                        rootv,
                        p,
                    ) || (reachable(sv, rootv, p) && is_strict_prefix(kidpaths[j as int], p))));
                    if covered_by_prefixes(kidpaths, j as int, sv, rootv, p) {
                        let i = choose|i: int|
                            0 <= i < j && #[trigger] is_strict_prefix(kidpaths[i], p)
                                && reachable(sv, rootv, p);
                        assert(covered_by_prefixes(kidpaths, j + 1, sv, rootv, p));
                    }
                    if reachable(sv, rootv, p) && is_strict_prefix(kidpaths[j as int], p) {
                        assert(covered_by_prefixes(kidpaths, j + 1, sv, rootv, p));
                    }
                    if covered_by_prefixes(kidpaths, j + 1, sv, rootv, p)
                        && !covered_by_prefixes(kidpaths, j as int, sv, rootv, p) {
                        let i = choose|i: int|
                            0 <= i < j + 1 && #[trigger] is_strict_prefix(kidpaths[i], p)
                                && reachable(sv, rootv, p);
                        assert(i == j);
                    }
                }
            }
        }
        j = j + 1;
    }
    proof {
        assert forall|i: int|
            0 <= i < old(outputs)@.len() implies outputs@[i] == old(outputs)@[i] by {
            assert(snap_out[i] == old(outputs)@[i]);
            assert(outputs@[i] == snap_out[i]);
        }
        if pre_holds {
            // assembling the subtree: the walked directory\'s own listing
            // plus every child scope\'s subtree is the recursive listing
            assert forall|p: Seq<Seq<char>>|
                #![trigger created_in_outputs(outputs@, task0.root@, p)]
                #![trigger reachable(sv, task0.root@, p)]
                created_in_outputs(outputs@, task0.root@, p) <==> (created_in_outputs(
                    old(outputs)@,
                    task0.root@,
                    p,
                ) || (reachable(sv, task0.root@, p) && is_strict_prefix(task0.entry.path@, p))) by {
                if created_in_outputs(outputs@, rootv, p) && !created_in_outputs(
                    old(outputs)@,
                    rootv,
                    p,
                ) {
                    if created_in_outputs(snap_out, rootv, p) {
                        lemma_child_reachable(sv, rootv, entryv, p);
                    } else {
                        assert(covered_by_prefixes(kidpaths, kids0.len() as int, sv, rootv, p));
                        let i = choose|i: int|
                            0 <= i < kids0.len() && #[trigger] is_strict_prefix(kidpaths[i], p)
                                && reachable(sv, rootv, p);
                        assert(is_child_path(entryv, kidpaths[i]));
                        assert(is_strict_prefix(entryv, kidpaths[i]));
                        lemma_prefix_trans(entryv, kidpaths[i], p);
                    }
                }
                if reachable(sv, rootv, p) && is_strict_prefix(entryv, p) {
                    lemma_subtree_decomposition(sv, rootv, entryv, p);
                    if p.len() == entryv.len() + 1 {
                        assert(is_child_path(entryv, p));
                        assert(created_in_outputs(snap_out, rootv, p));
                        assert(created_in_outputs(outputs@, rootv, p));
                    } else {
                        let q = p.subrange(0, entryv.len() as int + 1);
                        assert(is_child_path(entryv, q) && dir_entry(sv, q));
                        let i = choose|i: int|
                            0 <= i < kidpaths.len() && #[trigger] kidpaths[i] == q;
                        assert(is_strict_prefix(kidpaths[i], p));
                        assert(covered_by_prefixes(kidpaths, kids0.len() as int, sv, rootv, p));
                        assert(created_in_outputs(outputs@, rootv, p));
                    }
                }
            }
            assert(walk_creates_exactly(old(outputs)@, outputs@, sv, task0.root@, task0.entry.path@));
        }
    }
}

/// Pads or trims the per-entry name lists to the given count. With a
/// snapshot every stat succeeds, so in practice the count already
/// matches and nothing changes.
fn adjust_name_lists(mut lists: Vec<Vec<String>>, n: usize) -> (r: Vec<Vec<String>>)
    ensures
        r@.len() == n,
        forall|i: int| 0 <= i < n && i < lists@.len() ==> r@[i] == lists@[i],
{
    let ghost orig = lists@;
    proof {
        assert(orig.subrange(0, orig.len() as int) =~= orig);
    }
    while lists.len() > n
        invariant
            lists@.len() <= orig.len(),
            lists@.len() >= n || lists@.len() == orig.len(),
            lists@ =~= orig.subrange(0, lists@.len() as int),
        decreases lists@.len(),
    {
        let ghost prev = lists@;
        let _ = lists.pop();
        proof {
            assert(lists@ =~= prev.drop_last());
            assert(lists@ =~= orig.subrange(0, lists@.len() as int));
        }
    }
    while lists.len() < n
        invariant
            lists@.len() <= n,
            orig.len() < n ==> lists@.len() >= orig.len() && forall|i: int|
                0 <= i < orig.len() ==> lists@[i] == orig[i],
            orig.len() >= n ==> lists@.len() == n && forall|i: int|
                0 <= i < n ==> lists@[i] == orig[i],
        decreases n - lists@.len(),
    {
        lists.push(Vec::new());
    }
    proof {
        assert(forall|i: int| 0 <= i < n && i < orig.len() ==> lists@[i] == orig[i]);
    }
    lists
}

/// Takes the task at one index out of the vector, leaving a drained
/// placeholder behind, so ownership can move into the recursive call.
fn kids_take(kids: &mut Vec<WalkDirTask>, j: usize) -> (r: WalkDirTask)
    requires
        j < old(kids)@.len(),
        (old(kids)@[j as int]).wf(),
        old(kids)@[j as int].stage is Start,
    ensures
        final(kids)@.len() == old(kids)@.len(),
        r == old(kids)@[j as int],
        r.wf(),
        r.stage is Start,
        forall|i: int|
            0 <= i < old(kids)@.len() && i != j ==> final(kids)@[i] == old(kids)@[i],
        final(kids)@[j as int].wf() && final(kids)@[j as int].stage is Start,
{
    let placeholder = WalkDirTask {
        id: 0,
        entry: ToWalkEntry::from_path(SegPath::new()),
        root: Arc::new(SegPath::new()),
        entry_iso_file_path: crate::iso::IsolatedPath {
            location_id: 0,
            rel: SegPath::new(),
            is_dir: true,
        },
        indexer_ruler: Arc::new(IndexerRuler::empty()),
        iso_file_path_factory: IsoFilePathFactory { location_id: 0, root: SegPath::new() },
        stage: WalkerStage::Start,
        has_dispatcher: false,
        errors: Vec::new(),
    };
    let mut taken = placeholder;
    let slot = &mut kids[j];
    std::mem::swap(&mut taken, slot);
    proof {
        assert(taken == old(kids)@[j as int]);
    }
    taken
}

/// Walks a whole snapshot from the given root: builds the initial task,
/// runs it and every recursively spawned child, and returns the outputs
/// in completion order. `recursive` mirrors whether a dispatcher is
/// available: without one, only the root directory itself is walked.
///
/// With no rules configured and an empty store, what a recursive walk
/// creates — across the root task and all its spawned children — is
/// exactly the complete recursive directory listing from the walk root,
/// empty subdirectories included and symlinks excluded.
pub fn walk_snapshot(
    snapshot: &FsSnapshot,
    root: SegPath,
    indexer_ruler: IndexerRuler,
    location_id: i32,
    store: &InMemoryStore,
    recursive: bool,
) -> (r: Vec<WalkOutput>)
    requires
        indexer_ruler.wf(),
        store.wf(),
    ensures
        (indexer_ruler.rules@.len() == 0 && store.records@.len() == 0 && recursive && (forall|
            i: int,
        |
            0 <= i < snapshot.entries@.len() ==> (#[trigger] snapshot.entries@[i]).path@.len()
                < usize::MAX)) ==> forall|p: Seq<Seq<char>>|
            #![trigger created_in_outputs(r@, root@, p)]
            #![trigger reachable(entry_views(snapshot.entries@), root@, p)]
            created_in_outputs(r@, root@, p) <==> reachable(
                entry_views(snapshot.entries@),
                root@,
                p,
            ),
{
    let ghost sv = entry_views(snapshot.entries@);
    let ghost rootv = root@;
    let ghost no_rules = indexer_ruler.rules@.len() == 0 && store.records@.len() == 0 && recursive
        && (forall|i: int|
        0 <= i < snapshot.entries@.len() ==> (#[trigger] snapshot.entries@[i]).path@.len()
            < usize::MAX);
    let root_arc = Arc::new(root);
    let ruler_arc = Arc::new(indexer_ruler);
    let factory = IsoFilePathFactory {
        location_id,
        root: {
            let r: &SegPath = &root_arc;
            r.duplicate()
        },
    };
    let entry = ToWalkEntry::from_path(
        {
            let r: &SegPath = &root_arc;
            r.duplicate()
        },
    );
    let mut outputs: Vec<WalkOutput> = Vec::new();
    let task = match WalkDirTask::new(
        entry,
        arc_clone_path(&root_arc),
        arc_clone_ruler(&ruler_arc),
        factory,
        recursive,
    ) {
        Ok(t) => t,
        Err(_) => {
            proof {
                assert(false);
            }
            return outputs;
        },
    };
    let ghost task_g = task;
    let depth = snapshot.depth_budget();
    proof {
        if no_rules {
            assert(task_g.entry.path@ == rootv);
            assert(task_g.root@ == rootv);
            assert(task_g.iso_file_path_factory.root@ == rootv);
            assert(dir_scope_ok(sv, rootv, task_g.entry.path@));
            assert(subtree_bounded(sv, rootv, task_g.entry.path@, depth as int)) by {
                assert forall|p: Seq<Seq<char>>|
                    #[trigger] reachable(sv, rootv, p) && is_strict_prefix(rootv, p)
                        implies p.len() < rootv.len() + depth by {
                    let i = choose|i: int|
                        0 <= i < sv.len() && (#[trigger] sv[i]).0 == p && !sv[i].1.is_symlink;
                    assert(sv[i].0 == snapshot.entries@[i].path@);
                    assert(snapshot.entries@[i].path@.len() < depth || depth == usize::MAX);
                    assert(snapshot.entries@[i].path@.len() < usize::MAX);
                }
            }
            assert(task_g.indexer_ruler.rules@.len() == 0);
            assert(store.records@.len() == 0);
            assert(task_g.iso_file_path_factory.root@ == task_g.root@);
            assert(task_g.entry.parent_dir_accepted_by_its_children
                == crate::walker::ChildrenAcceptance::Unknown);
            assert(task_g.has_dispatcher);
            assert(no_rules_walk_pre(sv, task_g, *store, depth as int));
        }
    }
    let ghost pre_out = outputs@;
    run_task(snapshot, task, store, depth, &mut outputs);
    proof {
        if no_rules {
            assert(walk_creates_exactly(pre_out, outputs@, sv, task_g.root@, task_g.entry.path@));
            assert forall|p: Seq<Seq<char>>|
                #![trigger created_in_outputs(outputs@, rootv, p)]
                #![trigger reachable(sv, rootv, p)]
                created_in_outputs(outputs@, rootv, p) <==> reachable(sv, rootv, p) by {
                assert(created_in_outputs(outputs@, rootv, p) <==> (created_in_outputs(
                    pre_out,
                    rootv,
                    p,
                ) || (reachable(sv, rootv, p) && is_strict_prefix(rootv, p))));
                assert(pre_out.len() == 0);
                assert(!created_in_outputs(pre_out, rootv, p));
            }
        }
    }
    outputs
}


/// `p` is a snapshot entry that is not a symlink.
pub open spec fn nonsym_entry(sv: Seq<(Seq<Seq<char>>, DiskMetadata)>, p: Seq<Seq<char>>) -> bool {
    exists|i: int| 0 <= i < sv.len() && (#[trigger] sv[i]).0 == p && !sv[i].1.is_symlink
}

/// `p` is a snapshot entry that is a directory and not a symlink.
pub open spec fn dir_entry(sv: Seq<(Seq<Seq<char>>, DiskMetadata)>, p: Seq<Seq<char>>) -> bool {
    exists|i: int|
        0 <= i < sv.len() && (#[trigger] sv[i]).0 == p && sv[i].1.is_dir && !sv[i].1.is_symlink
}

/// `p` belongs to the complete recursive listing from the walk root: it
/// is a non-symlink entry strictly under the root and every directory on
/// the way down to it is a non-symlink directory entry.
pub open spec fn reachable(
    sv: Seq<(Seq<Seq<char>>, DiskMetadata)>,
    root: Seq<Seq<char>>,
    p: Seq<Seq<char>>,
) -> bool {
    &&& nonsym_entry(sv, p)
    &&& is_strict_prefix(root, p)
    &&& forall|l: int| root.len() < l < p.len() ==> dir_entry(sv, #[trigger] p.subrange(0, l))
}

/// The directory a task walks is the root itself or a reachable
/// directory.
pub open spec fn dir_scope_ok(
    sv: Seq<(Seq<Seq<char>>, DiskMetadata)>,
    root: Seq<Seq<char>>,
    d: Seq<Seq<char>>,
) -> bool {
    d == root || (dir_entry(sv, d) && reachable(sv, root, d))
}

/// The recursion budget covers every reachable path below `d`.
pub open spec fn subtree_bounded(
    sv: Seq<(Seq<Seq<char>>, DiskMetadata)>,
    root: Seq<Seq<char>>,
    d: Seq<Seq<char>>,
    depth: int,
) -> bool {
    forall|p: Seq<Seq<char>>|
        #[trigger] reachable(sv, root, p) && is_strict_prefix(d, p) ==> p.len() < d.len() + depth
}

/// Some output holds a create whose identity is `p` relative to the walk
/// root.
pub open spec fn created_in_outputs(
    outputs: Seq<WalkOutput>,
    root: Seq<Seq<char>>,
    p: Seq<Seq<char>>,
) -> bool {
    &&& is_strict_prefix(root, p)
    &&& exists|i: int, j: int|
        0 <= i < outputs.len() && 0 <= j < (#[trigger] outputs[i].to_create@[j])@.iso.1.len() + outputs[i].to_create@.len()
            && 0 <= j < outputs[i].to_create@.len() && outputs[i].to_create@[j]@.iso.1
            == p.subrange(root.len() as int, p.len() as int)
}

/// The hypotheses under which a walk with no rules configured visits
/// everything: an empty rule set, an empty store, the identity factory
/// rooted at the walk root, nothing inherited, recursion on, a
/// duplicate-free snapshot, a walked directory on the recursive listing,
/// and a budget that covers it.
pub open spec fn no_rules_walk_pre(
    sv: Seq<(Seq<Seq<char>>, DiskMetadata)>,
    task: WalkDirTask,
    store: InMemoryStore,
    depth: int,
) -> bool {
    &&& task.indexer_ruler.rules@.len() == 0
    &&& store.records@.len() == 0
    &&& task.iso_file_path_factory.root@ == task.root@
    &&& task.entry.parent_dir_accepted_by_its_children
        == crate::walker::ChildrenAcceptance::Unknown
    &&& task.has_dispatcher
    &&& dir_scope_ok(sv, task.root@, task.entry.path@)
    &&& subtree_bounded(sv, task.root@, task.entry.path@, depth)
}

proof fn lemma_collected_all_ok(
    paths: Seq<Seq<Seq<char>>>,
    stats: Seq<Result<DiskMetadata, Seq<char>>>,
)
    requires
        paths.len() == stats.len(),
        forall|i: int| 0 <= i < stats.len() ==> (#[trigger] stats[i]) is Ok,
    ensures
        crate::walker::collected_of(paths, stats).len() == paths.len(),
        forall|i: int|
            0 <= i < paths.len() ==> #[trigger] crate::walker::collected_of(paths, stats)[i]
                == (paths[i], stats[i]->Ok_0),
    decreases paths.len(),
{
    if paths.len() > 0 {
        assert forall|i: int|
            0 <= i < stats.drop_last().len() implies (#[trigger] stats.drop_last()[i]) is Ok by {
            assert(stats.drop_last()[i] == stats[i]);
        }
        lemma_collected_all_ok(paths.drop_last(), stats.drop_last());
        assert(stats.last() is Ok);
        assert forall|i: int|
            0 <= i < paths.len() implies #[trigger] crate::walker::collected_of(paths, stats)[i]
            == (paths[i], stats[i]->Ok_0) by {
            if i < paths.len() - 1 {
                assert(crate::walker::collected_of(paths.drop_last(), stats.drop_last())[i] == (
                paths.drop_last()[i], stats.drop_last()[i]->Ok_0));
            }
        }
    }
}

proof fn lemma_creates_of_empty(ws: Seq<crate::walker::WalkingV>)
    ensures
        crate::walker::creates_of(ws, Seq::<crate::db::RecView>::empty()) == ws,
    decreases ws.len(),
{
    if ws.len() > 0 {
        lemma_creates_of_empty(ws.drop_last());
        assert(crate::db::find_record(Seq::<crate::db::RecView>::empty(), ws.last().iso) is None);
        assert(crate::walker::creates_of(ws, Seq::<crate::db::RecView>::empty())
            =~= ws.drop_last().push(ws.last()));
        assert(ws.drop_last().push(ws.last()) =~= ws);
    }
}

proof fn lemma_children_member_fwd(
    sv: Seq<(Seq<Seq<char>>, DiskMetadata)>,
    dir: Seq<Seq<char>>,
    i: int,
)
    requires
        0 <= i < children_of_spec(sv, dir).len(),
    ensures
        exists|j: int|
            0 <= j < sv.len() && (#[trigger] sv[j]) == children_of_spec(sv, dir)[i] && is_child_path(
                dir,
                sv[j].0,
            ),
    decreases sv.len(),
{
    if sv.len() > 0 {
        let rest = children_of_spec(sv.drop_last(), dir);
        if is_child_path(dir, sv.last().0) && i == rest.len() {
            assert(sv[sv.len() - 1] == children_of_spec(sv, dir)[i]);
        } else {
            lemma_children_member_fwd(sv.drop_last(), dir, i);
            let j = choose|j: int|
                0 <= j < sv.drop_last().len() && (#[trigger] sv.drop_last()[j]) == rest[i]
                    && is_child_path(dir, sv.drop_last()[j].0);
            assert(sv[j] == rest[i]);
        }
    }
}

proof fn lemma_children_member_bwd(
    sv: Seq<(Seq<Seq<char>>, DiskMetadata)>,
    dir: Seq<Seq<char>>,
    j: int,
)
    requires
        0 <= j < sv.len(),
        is_child_path(dir, sv[j].0),
    ensures
        exists|i: int|
            0 <= i < children_of_spec(sv, dir).len() && #[trigger] children_of_spec(sv, dir)[i]
                == sv[j],
    decreases sv.len(),
{
    if sv.len() > 0 {
        let res = children_of_spec(sv, dir);
        let rest = children_of_spec(sv.drop_last(), dir);
        if j == sv.len() - 1 {
            assert(res[rest.len() as int] == sv[j]);
        } else {
            assert(sv.drop_last()[j] == sv[j]);
            lemma_children_member_bwd(sv.drop_last(), dir, j);
            let i = choose|i: int| 0 <= i < rest.len() && #[trigger] rest[i] == sv[j];
            assert(res[i] == sv[j]);
        }
    }
}

proof fn lemma_nonsym_member_fwd(pairs: Seq<(Seq<Seq<char>>, DiskMetadata)>, i: int)
    requires
        0 <= i < crate::laws::non_symlinks_of(pairs).len(),
    ensures
        exists|j: int|
            0 <= j < pairs.len() && (#[trigger] pairs[j]) == crate::laws::non_symlinks_of(pairs)[i]
                && !pairs[j].1.is_symlink,
    decreases pairs.len(),
{
    if pairs.len() > 0 {
        let rest = crate::laws::non_symlinks_of(pairs.drop_last());
        if !pairs.last().1.is_symlink && i == rest.len() {
            assert(pairs[pairs.len() - 1] == crate::laws::non_symlinks_of(pairs)[i]);
        } else {
            lemma_nonsym_member_fwd(pairs.drop_last(), i);
            let j = choose|j: int|
                0 <= j < pairs.drop_last().len() && (#[trigger] pairs.drop_last()[j]) == rest[i]
                    && !pairs.drop_last()[j].1.is_symlink;
            assert(pairs[j] == rest[i]);
        }
    }
}

proof fn lemma_nonsym_member_bwd(pairs: Seq<(Seq<Seq<char>>, DiskMetadata)>, j: int)
    requires
        0 <= j < pairs.len(),
        !pairs[j].1.is_symlink,
    ensures
        exists|i: int|
            0 <= i < crate::laws::non_symlinks_of(pairs).len()
                && #[trigger] crate::laws::non_symlinks_of(pairs)[i] == pairs[j],
    decreases pairs.len(),
{
    if pairs.len() > 0 {
        let res = crate::laws::non_symlinks_of(pairs);
        let rest = crate::laws::non_symlinks_of(pairs.drop_last());
        if j == pairs.len() - 1 {
            assert(res[rest.len() as int] == pairs[j]);
        } else {
            assert(pairs.drop_last()[j] == pairs[j]);
            lemma_nonsym_member_bwd(pairs.drop_last(), j);
            let i = choose|i: int| 0 <= i < rest.len() && #[trigger] rest[i] == pairs[j];
            assert(res[i] == pairs[j]);
        }
    }
}

proof fn lemma_dirs_queued_member_fwd(
    pairs: Seq<(Seq<Seq<char>>, DiskMetadata)>,
    inh: crate::walker::ChildrenAcceptance,
    source: Seq<Seq<char>>,
    i: int,
)
    requires
        0 <= i < crate::laws::all_dirs_queued(pairs, inh, source).len(),
    ensures
        exists|j: int|
            0 <= j < pairs.len() && (#[trigger] pairs[j]).0 == crate::laws::all_dirs_queued(
                pairs,
                inh,
                source,
            )[i].path && pairs[j].1.is_dir && !pairs[j].1.is_symlink,
    decreases pairs.len(),
{
    if pairs.len() > 0 {
        let rest = crate::laws::all_dirs_queued(pairs.drop_last(), inh, source);
        let (p, m) = pairs.last();
        if !m.is_symlink && m.is_dir && i == rest.len() {
            assert(pairs[pairs.len() - 1].0 == crate::laws::all_dirs_queued(pairs, inh, source)[i].path);
        } else {
            lemma_dirs_queued_member_fwd(pairs.drop_last(), inh, source, i);
            let j = choose|j: int|
                0 <= j < pairs.drop_last().len() && (#[trigger] pairs.drop_last()[j]).0 == rest[i].path
                    && pairs.drop_last()[j].1.is_dir && !pairs.drop_last()[j].1.is_symlink;
            assert(pairs[j].0 == rest[i].path);
        }
    }
}

proof fn lemma_dirs_queued_member_bwd(
    pairs: Seq<(Seq<Seq<char>>, DiskMetadata)>,
    inh: crate::walker::ChildrenAcceptance,
    source: Seq<Seq<char>>,
    j: int,
)
    requires
        0 <= j < pairs.len(),
        pairs[j].1.is_dir,
        !pairs[j].1.is_symlink,
    ensures
        exists|i: int|
            0 <= i < crate::laws::all_dirs_queued(pairs, inh, source).len()
                && (#[trigger] crate::laws::all_dirs_queued(pairs, inh, source)[i]).path
                == pairs[j].0,
    decreases pairs.len(),
{
    if pairs.len() > 0 {
        let res = crate::laws::all_dirs_queued(pairs, inh, source);
        let rest = crate::laws::all_dirs_queued(pairs.drop_last(), inh, source);
        if j == pairs.len() - 1 {
            assert(res[rest.len() as int].path == pairs[j].0);
        } else {
            assert(pairs.drop_last()[j] == pairs[j]);
            lemma_dirs_queued_member_bwd(pairs.drop_last(), inh, source, j);
            let i = choose|i: int|
                0 <= i < rest.len() && (#[trigger] rest[i]).path == pairs[j].0;
            assert(res[i].path == pairs[j].0);
        }
    }
}

proof fn lemma_built_member_fwd(
    pairs: Seq<(Seq<Seq<char>>, DiskMetadata)>,
    root: Seq<Seq<char>>,
    loc: int,
    i: int,
)
    requires
        0 <= i < crate::walker::built_of(pairs, root, loc).len(),
    ensures
        exists|j: int|
            0 <= j < pairs.len() && crate::walker::iso_buildable(root, (#[trigger] pairs[j]).0)
                && crate::walker::built_of(pairs, root, loc)[i] == (crate::walker::WalkingV {
                iso: crate::iso::IsoFilePathFactory::spec_build(
                    root,
                    pairs[j].0,
                    loc,
                    pairs[j].1.is_dir,
                ),
                metadata: crate::walker::fpm_of(pairs[j].1),
            }) && crate::walker::built_of(pairs, root, loc)[i].iso.1 == pairs[j].0.subrange(
                root.len() as int,
                pairs[j].0.len() as int,
            ),
    decreases pairs.len(),
{
    if pairs.len() > 0 {
        let rest = crate::walker::built_of(pairs.drop_last(), root, loc);
        let (p, m) = pairs.last();
        if crate::walker::iso_buildable(root, p) && i == rest.len() {
            assert((#[trigger] pairs[pairs.len() - 1]).0 == p);
            assert(crate::walker::built_of(pairs, root, loc)[i].iso.1 == p.subrange(
                root.len() as int,
                p.len() as int,
            ));
        } else {
            lemma_built_member_fwd(pairs.drop_last(), root, loc, i);
            let j = choose|j: int|
                0 <= j < pairs.drop_last().len() && crate::walker::iso_buildable(
                    root,
                    (#[trigger] pairs.drop_last()[j]).0,
                ) && rest[i] == (crate::walker::WalkingV {
                    iso: crate::iso::IsoFilePathFactory::spec_build(
                        root,
                        pairs.drop_last()[j].0,
                        loc,
                        pairs.drop_last()[j].1.is_dir,
                    ),
                    metadata: crate::walker::fpm_of(pairs.drop_last()[j].1),
                }) && rest[i].iso.1 == pairs.drop_last()[j].0.subrange(
                    root.len() as int,
                    pairs.drop_last()[j].0.len() as int,
                );
            assert(pairs[j] == pairs.drop_last()[j]);
        }
    }
}

proof fn lemma_built_member_bwd(
    pairs: Seq<(Seq<Seq<char>>, DiskMetadata)>,
    root: Seq<Seq<char>>,
    loc: int,
    j: int,
)
    requires
        0 <= j < pairs.len(),
        crate::walker::iso_buildable(root, pairs[j].0),
    ensures
        exists|i: int|
            0 <= i < crate::walker::built_of(pairs, root, loc).len()
                && (#[trigger] crate::walker::built_of(pairs, root, loc)[i])
                == (crate::walker::WalkingV {
                iso: crate::iso::IsoFilePathFactory::spec_build(
                    root,
                    pairs[j].0,
                    loc,
                    pairs[j].1.is_dir,
                ),
                metadata: crate::walker::fpm_of(pairs[j].1),
            }),
    decreases pairs.len(),
{
    if pairs.len() > 0 {
        let res = crate::walker::built_of(pairs, root, loc);
        let rest = crate::walker::built_of(pairs.drop_last(), root, loc);
        if j == pairs.len() - 1 {
            assert(res[rest.len() as int] == (crate::walker::WalkingV {
                iso: crate::iso::IsoFilePathFactory::spec_build(
                    root,
                    pairs[j].0,
                    loc,
                    pairs[j].1.is_dir,
                ),
                metadata: crate::walker::fpm_of(pairs[j].1),
            }));
        } else {
            assert(pairs.drop_last()[j] == pairs[j]);
            lemma_built_member_bwd(pairs.drop_last(), root, loc, j);
            let i = choose|i: int|
                0 <= i < rest.len() && (#[trigger] rest[i]) == (crate::walker::WalkingV {
                    iso: crate::iso::IsoFilePathFactory::spec_build(
                        root,
                        pairs[j].0,
                        loc,
                        pairs[j].1.is_dir,
                    ),
                    metadata: crate::walker::fpm_of(pairs[j].1),
                });
            assert(res[i] == rest[i]);
        }
    }
}

proof fn lemma_prefix_trans(a: Seq<Seq<char>>, b: Seq<Seq<char>>, c: Seq<Seq<char>>)
    requires
        a == b || is_strict_prefix(a, b),
        is_strict_prefix(b, c),
    ensures
        is_strict_prefix(a, c),
{
    assert(c.subrange(0, b.len() as int) == b);
    assert(c.subrange(0, b.len() as int).subrange(0, a.len() as int) =~= c.subrange(
        0,
        a.len() as int,
    ));
    if a == b {
    } else {
        assert(b.subrange(0, a.len() as int) == a);
    }
}

/// A direct, non-symlink child of a walked directory belongs to the
/// recursive listing.
proof fn lemma_child_reachable(
    sv: Seq<(Seq<Seq<char>>, DiskMetadata)>,
    root: Seq<Seq<char>>,
    d: Seq<Seq<char>>,
    p: Seq<Seq<char>>,
)
    requires
        dir_scope_ok(sv, root, d),
        is_child_path(d, p),
        nonsym_entry(sv, p),
        d == root || is_strict_prefix(root, d),
    ensures
        reachable(sv, root, p),
        is_strict_prefix(d, p),
{
    assert(is_strict_prefix(d, p));
    lemma_prefix_trans(root, d, p);
    assert forall|l: int| root.len() < l < p.len() implies dir_entry(
        sv,
        #[trigger] p.subrange(0, l),
    ) by {
        if l < d.len() {
            assert(d != root);
            assert(reachable(sv, root, d));
            assert(p.subrange(0, d.len() as int) == d);
            assert(p.subrange(0, d.len() as int).subrange(0, l) =~= p.subrange(0, l));
            assert(dir_entry(sv, d.subrange(0, l)));
        } else {
            assert(l == d.len());
            assert(d != root);
            assert(p.subrange(0, l) =~= d);
            assert(dir_entry(sv, d));
        }
    }
}

/// The walked-directory property passes to a child directory.
proof fn lemma_child_scope_ok(
    sv: Seq<(Seq<Seq<char>>, DiskMetadata)>,
    root: Seq<Seq<char>>,
    d: Seq<Seq<char>>,
    q: Seq<Seq<char>>,
)
    requires
        dir_scope_ok(sv, root, d),
        is_child_path(d, q),
        dir_entry(sv, q),
        d == root || is_strict_prefix(root, d),
    ensures
        dir_scope_ok(sv, root, q),
{
    let i = choose|i: int|
        0 <= i < sv.len() && (#[trigger] sv[i]).0 == q && sv[i].1.is_dir && !sv[i].1.is_symlink;
    assert(nonsym_entry(sv, q));
    lemma_child_reachable(sv, root, d, q);
}

/// A reachable path strictly below a walked directory is its direct
/// child or lies under one of its reachable child directories.
proof fn lemma_subtree_decomposition(
    sv: Seq<(Seq<Seq<char>>, DiskMetadata)>,
    root: Seq<Seq<char>>,
    d: Seq<Seq<char>>,
    p: Seq<Seq<char>>,
)
    requires
        dir_scope_ok(sv, root, d),
        d == root || is_strict_prefix(root, d),
        reachable(sv, root, p),
        is_strict_prefix(d, p),
    ensures
        p.len() == d.len() + 1 ==> is_child_path(d, p),
        p.len() > d.len() + 1 ==> {
            let q = p.subrange(0, d.len() as int + 1);
            &&& is_child_path(d, q)
            &&& dir_entry(sv, q)
            &&& is_strict_prefix(q, p)
        },
{
    if p.len() == d.len() + 1 {
        assert(is_child_path(d, p));
    } else {
        let q = p.subrange(0, d.len() as int + 1);
        assert(q.subrange(0, d.len() as int) =~= p.subrange(0, d.len() as int));
        assert(is_child_path(d, q));
        assert(root.len() < d.len() + 1 < p.len()) by {
            if d != root {
                assert(is_strict_prefix(root, d));
            }
        }
        assert(dir_entry(sv, p.subrange(0, d.len() as int + 1)));
        assert(p.subrange(0, q.len() as int) == q);
        assert(is_strict_prefix(q, p));
    }
}

/// Every queued directory under the location root becomes a child task.
proof fn lemma_dispatched_identity(queued: Seq<crate::walker::ToWalkV>, froot: Seq<Seq<char>>)
    requires
        forall|i: int|
            0 <= i < queued.len() ==> crate::walker::iso_buildable(
                froot,
                (#[trigger] queued[i]).path,
            ),
    ensures
        crate::task::dispatched_of(queued, froot) == queued,
    decreases queued.len(),
{
    if queued.len() > 0 {
        assert forall|i: int|
            0 <= i < queued.drop_last().len() implies crate::walker::iso_buildable(
            froot,
            (#[trigger] queued.drop_last()[i]).path,
        ) by {
            assert(queued.drop_last()[i] == queued[i]);
        }
        lemma_dispatched_identity(queued.drop_last(), froot);
        assert(crate::walker::iso_buildable(froot, queued[queued.len() - 1].path));
        assert(crate::task::dispatched_of(queued, froot) =~= queued.drop_last().push(
            queued.last(),
        ));
        assert(queued.drop_last().push(queued.last()) =~= queued);
    }
}

/// What one appended output adds to the created set.
proof fn lemma_created_push(
    outputs: Seq<WalkOutput>,
    o: WalkOutput,
    root: Seq<Seq<char>>,
    p: Seq<Seq<char>>,
)
    ensures
        created_in_outputs(outputs.push(o), root, p) <==> (created_in_outputs(outputs, root, p)
            || (is_strict_prefix(root, p) && exists|j: int|
                0 <= j < o.to_create@.len() && (#[trigger] o.to_create@[j])@.iso.1 == p.subrange(
                    root.len() as int,
                    p.len() as int,
                ))),
{
    let s1 = outputs.push(o);
    if created_in_outputs(s1, root, p) {
        let (i, j) = choose|i: int, j: int|
            0 <= i < s1.len() && 0 <= j < (#[trigger] s1[i].to_create@[j])@.iso.1.len()
                + s1[i].to_create@.len() && 0 <= j < s1[i].to_create@.len()
                && s1[i].to_create@[j]@.iso.1 == p.subrange(root.len() as int, p.len() as int);
        if i < outputs.len() {
            assert(s1[i] == outputs[i]);
            assert(created_in_outputs(outputs, root, p));
        } else {
            assert(s1[i] == o);
        }
    }
    if created_in_outputs(outputs, root, p) {
        let (i, j) = choose|i: int, j: int|
            0 <= i < outputs.len() && 0 <= j < (#[trigger] outputs[i].to_create@[j])@.iso.1.len()
                + outputs[i].to_create@.len() && 0 <= j < outputs[i].to_create@.len()
                && outputs[i].to_create@[j]@.iso.1 == p.subrange(
                root.len() as int,
                p.len() as int,
            );
        assert(s1[i] == outputs[i]);
        assert(created_in_outputs(s1, root, p));
    }
    if is_strict_prefix(root, p) && exists|j: int|
        0 <= j < o.to_create@.len() && (#[trigger] o.to_create@[j])@.iso.1 == p.subrange(
            root.len() as int,
            p.len() as int,
        ) {
        let j = choose|j: int|
            0 <= j < o.to_create@.len() && (#[trigger] o.to_create@[j])@.iso.1 == p.subrange(
                root.len() as int,
                p.len() as int,
            );
        assert(s1[outputs.len() as int] == o);
        assert(created_in_outputs(s1, root, p));
    }
}

/// A child of a root-covered directory lies strictly under the root.
proof fn lemma_child_under_root(root: Seq<Seq<char>>, d: Seq<Seq<char>>, p: Seq<Seq<char>>)
    requires
        crate::walker::iso_buildable(root, d),
        is_child_path(d, p),
    ensures
        is_strict_prefix(root, p),
{
    assert(is_strict_prefix(d, p));
    lemma_prefix_trans(root, d, p);
}

/// Two root-covered paths with the same root-relative remainder are the
/// same path.
proof fn lemma_same_rel_same_path(root: Seq<Seq<char>>, p: Seq<Seq<char>>, c: Seq<Seq<char>>)
    requires
        is_strict_prefix(root, p),
        is_strict_prefix(root, c),
        p.subrange(root.len() as int, p.len() as int) == c.subrange(
            root.len() as int,
            c.len() as int,
        ),
    ensures
        p == c,
{
    assert(p.subrange(root.len() as int, p.len() as int).len() == p.len() - root.len());
    assert(c.subrange(root.len() as int, c.len() as int).len() == c.len() - root.len());
    assert(p.len() == c.len());
    assert forall|i: int| 0 <= i < p.len() implies p[i] == c[i] by {
        if i < root.len() {
            assert(p.subrange(0, root.len() as int)[i] == root[i]);
            assert(c.subrange(0, root.len() as int)[i] == root[i]);
        } else {
            assert(p.subrange(root.len() as int, p.len() as int)[i - root.len()] == p[i]);
            assert(c.subrange(root.len() as int, c.len() as int)[i - root.len()] == c[i]);
        }
    }
    assert(p =~= c);
}

/// Every queued directory carries the inherited signal and its parent.
proof fn lemma_dirs_queued_fields(
    pairs: Seq<(Seq<Seq<char>>, DiskMetadata)>,
    inh: crate::walker::ChildrenAcceptance,
    source: Seq<Seq<char>>,
    i: int,
)
    requires
        0 <= i < crate::laws::all_dirs_queued(pairs, inh, source).len(),
    ensures
        crate::laws::all_dirs_queued(pairs, inh, source)[i].parent_dir_accepted_by_its_children
            == inh,
        crate::laws::all_dirs_queued(pairs, inh, source)[i].maybe_parent == Some(source),
        is_child_path(source, crate::laws::all_dirs_queued(pairs, inh, source)[i].path)
            || !is_child_path(source, crate::laws::all_dirs_queued(pairs, inh, source)[i].path),
    decreases pairs.len(),
{
    if pairs.len() > 0 {
        let rest = crate::laws::all_dirs_queued(pairs.drop_last(), inh, source);
        if i < rest.len() {
            lemma_dirs_queued_fields(pairs.drop_last(), inh, source, i);
        }
    }
}

/// What a no-rules walk of directory `d` adds to the outputs: exactly
/// the recursive listing strictly below `d`.
pub open spec fn walk_creates_exactly(
    pre_out: Seq<WalkOutput>,
    post_out: Seq<WalkOutput>,
    sv: Seq<(Seq<Seq<char>>, DiskMetadata)>,
    root: Seq<Seq<char>>,
    d: Seq<Seq<char>>,
) -> bool {
    forall|p: Seq<Seq<char>>|
        #![trigger created_in_outputs(post_out, root, p)]
        #![trigger reachable(sv, root, p)]
        created_in_outputs(post_out, root, p) <==> (created_in_outputs(pre_out, root, p) || (
        reachable(sv, root, p) && is_strict_prefix(d, p)))
}

/// `p` falls under one of the first `upto` recursion scopes.
spec fn covered_by_prefixes(
    prefixes: Seq<Seq<Seq<char>>>,
    upto: int,
    sv: Seq<(Seq<Seq<char>>, DiskMetadata)>,
    root: Seq<Seq<char>>,
    p: Seq<Seq<char>>,
) -> bool {
    exists|i: int|
        0 <= i < upto && #[trigger] is_strict_prefix(prefixes[i], p) && reachable(sv, root, p)
}

} // verus!
