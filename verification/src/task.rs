use vstd::prelude::*;
use std::sync::Arc;
use crate::db::{FilePathRecord, PubAndCasId};
use crate::error::{err_views, NonCriticalIndexerError, NonCriticalV, IndexerError};
use crate::iso::{IsolatedPath, IsoFilePathFactory};
use crate::meta::DiskMetadata;
use crate::path::{is_strict_prefix, SegPath};
use crate::rules::IndexerRuler;
use crate::walker::{
    assessed_of, assessed_views, built_errors_of, built_keys_of, built_of, build_walking_entries,
    collect_errors_of, collected_of, collect_metadata, apply_indexer_rules, iso_buildable,
    iso_key_views, pair_views, paths_views, process_rules_results, segregate_creates_and_updates,
    stat_views, towalk_views, walking_views, ToWalkEntry, ToWalkV, WalkedEntry, WalkingEntry,
    RuleAssessedEntry, generate_pub_id,
};

verus! {

/// Relies on std's `Arc::clone`: both handles are the same value.
#[verifier::external_body]
pub fn arc_clone_path(a: &Arc<SegPath>) -> (r: Arc<SegPath>)
    ensures
        r == *a,
{
    Arc::clone(a)
}

/// Relies on std's `Arc::clone`: both handles are the same value.
#[verifier::external_body]
pub fn arc_clone_ruler(a: &Arc<IndexerRuler>) -> (r: Arc<IndexerRuler>)
    ensures
        r == *a,
{
    Arc::clone(a)
}

/// The walk task's current stage, holding exactly the data needed to
/// resume from that point: interruption between stages (or inside the
/// `Walking` loop) preserves it as-is, and a later resume recomputes
/// nothing.
pub enum WalkerStage {
    Start,
    Walking { found_paths: Vec<SegPath> },
    CollectingMetadata { found_paths: Vec<SegPath> },
    CheckingIndexerRules { paths_and_metadatas: Vec<(SegPath, DiskMetadata)> },
    ProcessingRulesResults { paths_metadatas_and_acceptance: Vec<RuleAssessedEntry> },
    GatheringFilePathsToRemove {
        accepted_paths: Vec<(SegPath, DiskMetadata)>,
        maybe_to_keep_walking: Option<Vec<ToWalkEntry>>,
        accepted_ancestors: Vec<SegPath>,
    },
    Finalize {
        walking_entries: Vec<WalkingEntry>,
        accepted_ancestors: Vec<SegPath>,
        to_remove_entries: Vec<PubAndCasId>,
        maybe_to_keep_walking: Option<Vec<ToWalkEntry>>,
    },
    Done,
}

/// The views of a sequence of removal candidates.
pub open spec fn pubcas_views(s: Seq<PubAndCasId>) -> Seq<(u128, Option<Seq<char>>)> {
    Seq::new(s.len(), |i: int| s[i]@)
}

/// One walk task: a single-directory scope driven forward through its
/// stages by the caller, which performs the I/O at each boundary and
/// hands the results in as plain values. The task never skips a stage
/// and, once `finalize` has run, never restarts.
pub struct WalkDirTask {
    pub id: u128,
    pub entry: ToWalkEntry,
    pub root: Arc<SegPath>,
    pub entry_iso_file_path: IsolatedPath,
    pub indexer_ruler: Arc<IndexerRuler>,
    pub iso_file_path_factory: IsoFilePathFactory,
    pub stage: WalkerStage,
    pub has_dispatcher: bool,
    pub errors: Vec<NonCriticalIndexerError>,
}

/// The terminal, immutable result of one walk task. `child_tasks` holds
/// the constructed sub-walks for the caller to dispatch and join; the
/// task never awaits them itself.
pub struct WalkOutput {
    pub to_create: Vec<WalkedEntry>,
    pub to_update: Vec<WalkedEntry>,
    pub to_remove: Vec<PubAndCasId>,
    pub accepted_ancestors: Vec<SegPath>,
    pub errors: Vec<NonCriticalIndexerError>,
    pub directory: SegPath,
    pub total_size: u64,
    pub maybe_parent: Option<SegPath>,
    pub child_tasks: Vec<WalkDirTask>,
}

/// Every found path lies strictly under the walk root.
pub open spec fn found_under_root(s: Seq<SegPath>, root: Seq<Seq<char>>) -> bool {
    forall|i: int| 0 <= i < s.len() ==> is_strict_prefix(root, (#[trigger] s[i])@)
}

pub open spec fn pairs_under_root(
    s: Seq<(SegPath, DiskMetadata)>,
    root: Seq<Seq<char>>,
) -> bool {
    forall|i: int| 0 <= i < s.len() ==> is_strict_prefix(root, (#[trigger] s[i]).0@)
}

pub open spec fn assessed_under_root(s: Seq<RuleAssessedEntry>, root: Seq<Seq<char>>) -> bool {
    forall|i: int| 0 <= i < s.len() ==> is_strict_prefix(root, (#[trigger] s[i])@.path)
}

/// Every queued directory lies strictly under the walk root.
pub open spec fn towalk_under_root(s: Seq<ToWalkEntry>, root: Seq<Seq<char>>) -> bool {
    forall|i: int| 0 <= i < s.len() ==> is_strict_prefix(root, (#[trigger] s[i])@.path)
}

/// Whatever `queued_of` queues was among the assessed entries, so it
/// stays under the root.
proof fn lemma_queued_under_root(
    s: Seq<crate::walker::RuleAssessedV>,
    inh: crate::walker::ChildrenAcceptance,
    source: Seq<Seq<char>>,
    root: Seq<Seq<char>>,
    i: int,
)
    requires
        forall|j: int| 0 <= j < s.len() ==> is_strict_prefix(root, (#[trigger] s[j]).path),
        0 <= i < crate::walker::queued_of(s, inh, source).len(),
    ensures
        is_strict_prefix(root, crate::walker::queued_of(s, inh, source)[i].path),
    decreases s.len(),
{
    if s.len() > 0 {
        let rest = crate::walker::queued_of(s.drop_last(), inh, source);
        assert forall|j: int|
            0 <= j < s.drop_last().len() implies is_strict_prefix(
            root,
            (#[trigger] s.drop_last()[j]).path,
        ) by {
            assert(s.drop_last()[j] == s[j]);
        }
        if crate::walker::spec_entry_queued(s.last().acceptance, s.last().metadata.is_dir) {
            if i < rest.len() {
                lemma_queued_under_root(s.drop_last(), inh, source, root, i);
            } else {
                assert(crate::walker::queued_of(s, inh, source)[i].path == s.last().path);
            }
        } else {
            lemma_queued_under_root(s.drop_last(), inh, source, root, i);
        }
    }
}

impl WalkDirTask {
    /// Everything the stages rely on: a well-formed rule engine, a walk
    /// root at or above the walked directory, stage data under the root,
    /// and a queue exactly when recursion is on.
    pub open spec fn wf(&self) -> bool {
        &&& self.indexer_ruler.wf()
        &&& iso_buildable(self.root@, self.entry.path@)
        &&& match self.stage {
            WalkerStage::Walking { found_paths } => found_under_root(found_paths@, self.root@),
            WalkerStage::CollectingMetadata { found_paths } => found_under_root(
                found_paths@,
                self.root@,
            ),
            WalkerStage::CheckingIndexerRules { paths_and_metadatas } => pairs_under_root(
                paths_and_metadatas@,
                self.root@,
            ),
            WalkerStage::ProcessingRulesResults { paths_metadatas_and_acceptance }
                => assessed_under_root(paths_metadatas_and_acceptance@, self.root@),
            WalkerStage::GatheringFilePathsToRemove { maybe_to_keep_walking, .. } => (
            maybe_to_keep_walking is Some) == self.has_dispatcher && (maybe_to_keep_walking
                matches Some(v) ==> towalk_under_root(v@, self.root@)),
            WalkerStage::Finalize { maybe_to_keep_walking, .. } => (maybe_to_keep_walking
                is Some) == self.has_dispatcher && (maybe_to_keep_walking matches Some(v)
                ==> towalk_under_root(v@, self.root@)),
            _ => true,
        }
    }

    /// Builds a task for one directory. Fails exactly when the canonical
    /// identity of the directory cannot be built, that is when the
    /// directory does not lie at or under the factory's location root.
    pub fn new(
        entry: ToWalkEntry,
        root: Arc<SegPath>,
        indexer_ruler: Arc<IndexerRuler>,
        iso_file_path_factory: IsoFilePathFactory,
        has_dispatcher: bool,
    ) -> (r: Result<WalkDirTask, crate::iso::FilePathError>)
        requires
            indexer_ruler.wf(),
            iso_buildable(root@, entry.path@),
        ensures
            (r is Ok) == iso_buildable(iso_file_path_factory.root@, entry.path@),
            r matches Err(e) ==> e matches crate::iso::FilePathError::NotUnderRoot(t) && t@
                == crate::path::joined(entry.path@),
            r matches Ok(t) ==> t.wf() && t.stage is Start && t.entry == entry && t.root == root
                && t.indexer_ruler == indexer_ruler && t.iso_file_path_factory.root@
                == iso_file_path_factory.root@ && t.iso_file_path_factory.location_id
                == iso_file_path_factory.location_id && t.has_dispatcher == has_dispatcher
                && t.errors@.len() == 0 && t.entry_iso_file_path@
                == IsoFilePathFactory::spec_build(
                iso_file_path_factory.root@,
                entry.path@,
                iso_file_path_factory.location_id as int,
                true,
            ),
    {
        let entry_iso_file_path = match iso_file_path_factory.build(&entry.path, true) {
            Ok(ip) => ip,
            Err(e) => {
                return Err(e);
            },
        };
        Ok(
            WalkDirTask {
                id: generate_pub_id(),
                entry,
                root,
                entry_iso_file_path,
                indexer_ruler,
                iso_file_path_factory,
                stage: WalkerStage::Start,
                has_dispatcher,
                errors: Vec::new(),
            },
        )
    }

    pub fn id(&self) -> (r: u128)
        ensures
            r == self.id,
    {
        self.id
    }

    /// The fatal error reported when the task's directory cannot be
    /// opened for reading: the task aborts with no partial output.
    pub fn fail_to_open(&self, msg: String) -> (r: IndexerError)
        ensures
            r matches IndexerError::FileIO(m) && m@ == msg@,
    {
        IndexerError::FileIO(msg)
    }

    /// The directory was opened: entry enumeration begins with nothing
    /// found yet.
    pub fn begin_walking(&mut self)
        requires
            old(self).wf(),
            old(self).stage is Start,
        ensures
            final(self).wf(),
            final(self).stage matches WalkerStage::Walking { found_paths } && found_paths@.len()
                == 0,
            unchanged_but_stage(old(self), final(self)),
            final(self).errors@ == old(self).errors@,
    {
        self.stage = WalkerStage::Walking { found_paths: Vec::new() };
    }

    /// One directory entry was enumerated successfully.
    pub fn push_found_path(&mut self, path: SegPath)
        requires
            old(self).wf(),
            old(self).stage is Walking,
            is_strict_prefix(old(self).root@, path@),
        ensures
            final(self).wf(),
            match (old(self).stage, final(self).stage) {
                (
                    WalkerStage::Walking { found_paths: f0 },
                    WalkerStage::Walking { found_paths: f1 },
                ) => f1@.len() == f0@.len() + 1 && f1@.last()@ == path@ && forall|i: int|
                    0 <= i < f0@.len() ==> f1@[i] == f0@[i],
                _ => false,
            },
            unchanged_but_stage(old(self), final(self)),
            final(self).errors@ == old(self).errors@,
    {
        match &mut self.stage {
            WalkerStage::Walking { found_paths } => {
                found_paths.push(path);
            },
            _ => {
                proof {
                    assert(false);
                }
            },
        }
    }

    /// One directory entry failed to enumerate: recorded, the walk goes
    /// on.
    pub fn push_directory_entry_error(&mut self, msg: String)
        requires
            old(self).wf(),
            old(self).stage is Walking,
        ensures
            final(self).wf(),
            final(self).stage == old(self).stage,
            unchanged_but_stage(old(self), final(self)),
            err_views(final(self).errors@) == err_views(old(self).errors@).push(
                NonCriticalV::FailedDirectoryEntry(msg@),
            ),
    {
        let ghost pe = self.errors@;
        self.errors.push(NonCriticalIndexerError::FailedDirectoryEntry(msg));
        proof {
            assert(err_views(self.errors@) =~= err_views(pe).push(
                self.errors@.last()@,
            ));
        }
    }

    /// The directory stream is exhausted: the found paths move on to the
    /// metadata stage unchanged.
    pub fn finish_walking(&mut self)
        requires
            old(self).wf(),
            old(self).stage is Walking,
        ensures
            final(self).wf(),
            match (old(self).stage, final(self).stage) {
                (
                    WalkerStage::Walking { found_paths: f0 },
                    WalkerStage::CollectingMetadata { found_paths: f1 },
                ) => f1 == f0,
                _ => false,
            },
            unchanged_but_stage(old(self), final(self)),
            final(self).errors@ == old(self).errors@,
    {
        let mut taken = WalkerStage::Done;
        std::mem::swap(&mut taken, &mut self.stage);
        match taken {
            WalkerStage::Walking { found_paths } => {
                self.stage = WalkerStage::CollectingMetadata { found_paths };
            },
            _ => {
                proof {
                    assert(false);
                }
            },
        }
    }

    /// Every found path was stat'ed concurrently and independently; the
    /// results come in aligned with the found paths, failures recorded
    /// and their entries dropped.
    pub fn collect_metadata_results(&mut self, stats: Vec<Result<DiskMetadata, String>>)
        requires
            old(self).wf(),
            old(self).stage matches WalkerStage::CollectingMetadata { found_paths } && stats@.len()
                == found_paths@.len(),
        ensures
            final(self).wf(),
            match (old(self).stage, final(self).stage) {
                (
                    WalkerStage::CollectingMetadata { found_paths },
                    WalkerStage::CheckingIndexerRules { paths_and_metadatas },
                ) => pair_views(paths_and_metadatas@) == collected_of(
                    paths_views(found_paths@),
                    stat_views(stats@),
                ),
                _ => false,
            },
            unchanged_but_stage(old(self), final(self)),
            err_views(final(self).errors@) == err_views(old(self).errors@) + collect_errors_of(
                stat_views(stats@),
            ),
    {
        let mut taken = WalkerStage::Done;
        std::mem::swap(&mut taken, &mut self.stage);
        match taken {
            WalkerStage::CollectingMetadata { found_paths } => {
                let ghost fp = found_paths@;
                let paths_and_metadatas = collect_metadata(found_paths, stats, &mut self.errors);
                proof {
                    assert forall|i: int|
                        0 <= i < paths_and_metadatas@.len() implies is_strict_prefix(
                        self.root@,
                        (#[trigger] paths_and_metadatas@[i]).0@,
                    ) by {
                        lemma_collected_under_root(
                            paths_views(fp),
                            stat_views(stats@),
                            self.root@,
                            pair_views(paths_and_metadatas@),
                            i,
                        );
                    }
                }
                self.stage = WalkerStage::CheckingIndexerRules { paths_and_metadatas };
            },
            _ => {
                proof {
                    assert(false);
                }
            },
        }
    }

    /// The rule engine judged every non-symlink entry; `child_dir_names`
    /// aligns with the entries and carries each directory's child
    /// directory names.
    pub fn check_indexer_rules(&mut self, child_dir_names: Vec<Vec<String>>)
        requires
            old(self).wf(),
            old(self).stage matches WalkerStage::CheckingIndexerRules { paths_and_metadatas }
                && child_dir_names@.len() == paths_and_metadatas@.len(),
        ensures
            final(self).wf(),
            match (old(self).stage, final(self).stage) {
                (
                    WalkerStage::CheckingIndexerRules { paths_and_metadatas },
                    WalkerStage::ProcessingRulesResults { paths_metadatas_and_acceptance },
                ) => assessed_views(paths_metadatas_and_acceptance@) == assessed_of(
                    pair_views(paths_and_metadatas@),
                    child_dir_names.deep_view(),
                    old(self).indexer_ruler.rules@,
                ),
                _ => false,
            },
            unchanged_but_stage(old(self), final(self)),
            final(self).errors@ == old(self).errors@,
    {
        let mut taken = WalkerStage::Done;
        std::mem::swap(&mut taken, &mut self.stage);
        match taken {
            WalkerStage::CheckingIndexerRules { paths_and_metadatas } => {
                let ghost pm = paths_and_metadatas@;
                let paths_metadatas_and_acceptance = apply_indexer_rules(
                    paths_and_metadatas,
                    &self.indexer_ruler,
                    child_dir_names,
                );
                proof {
                    assert forall|i: int|
                        0 <= i < paths_metadatas_and_acceptance@.len() implies is_strict_prefix(
                        self.root@,
                        (#[trigger] paths_metadatas_and_acceptance@[i])@.path,
                    ) by {
                        lemma_assessed_under_root(
                            pair_views(pm),
                            child_dir_names.deep_view(),
                            self.indexer_ruler.rules@,
                            self.root@,
                            assessed_views(paths_metadatas_and_acceptance@),
                            i,
                        );
                    }
                }
                self.stage = WalkerStage::ProcessingRulesResults { paths_metadatas_and_acceptance };
            },
            _ => {
                proof {
                    assert(false);
                }
            },
        }
    }

    /// The acceptance precedence is applied to every assessed entry: the
    /// accepted paths and their ancestors are computed, and directories
    /// are queued for recursion exactly when a dispatcher is available.
    pub fn process_rules(&mut self)
        requires
            old(self).wf(),
            old(self).stage is ProcessingRulesResults,
        ensures
            final(self).wf(),
            match (old(self).stage, final(self).stage) {
                (
                    WalkerStage::ProcessingRulesResults { paths_metadatas_and_acceptance },
                    WalkerStage::GatheringFilePathsToRemove {
                        accepted_paths,
                        maybe_to_keep_walking,
                        accepted_ancestors,
                    },
                ) => {
                    let inh = old(self).entry.parent_dir_accepted_by_its_children;
                    let views = assessed_views(paths_metadatas_and_acceptance@);
                    &&& pair_views(accepted_paths@) == crate::walker::accepted_of(views, inh)
                    &&& forall|a: Seq<Seq<char>>|
                        #![trigger crate::path::contains_path(accepted_ancestors@, a)]
                        crate::path::contains_path(accepted_ancestors@, a)
                            <==> crate::walker::ancestor_of_accepted(views, inh, old(self).root@, a)
                    &&& crate::walker::path_nodup(accepted_ancestors@)
                    &&& (maybe_to_keep_walking is Some) == old(self).has_dispatcher
                    &&& (maybe_to_keep_walking matches Some(v) ==> towalk_views(v@)
                        == crate::walker::queued_of(views, inh, old(self).entry.path@))
                },
                _ => false,
            },
            unchanged_but_stage(old(self), final(self)),
            final(self).errors@ == old(self).errors@,
    {
        let mut taken = WalkerStage::Done;
        std::mem::swap(&mut taken, &mut self.stage);
        match taken {
            WalkerStage::ProcessingRulesResults { paths_metadatas_and_acceptance } => {
                let mut maybe_to_keep_walking: Option<Vec<ToWalkEntry>> = if self.has_dispatcher {
                    Some(Vec::new())
                } else {
                    None
                };
                let ghost views = assessed_views(paths_metadatas_and_acceptance@);
                let (accepted_paths, accepted_ancestors) = process_rules_results(
                    &self.entry.path,
                    &self.root,
                    self.entry.parent_dir_accepted_by_its_children,
                    paths_metadatas_and_acceptance,
                    &mut maybe_to_keep_walking,
                );
                proof {
                    if maybe_to_keep_walking is Some {
                        let v = maybe_to_keep_walking->Some_0;
                        assert forall|i: int|
                            0 <= i < v@.len() implies is_strict_prefix(
                            self.root@,
                            (#[trigger] v@[i])@.path,
                        ) by {
                            assert(towalk_views(v@)[i] == v@[i]@);
                            lemma_queued_under_root(
                                views,
                                self.entry.parent_dir_accepted_by_its_children,
                                self.entry.path@,
                                self.root@,
                                i,
                            );
                        }
                    }
                }
                self.stage = WalkerStage::GatheringFilePathsToRemove {
                    accepted_paths,
                    maybe_to_keep_walking,
                    accepted_ancestors,
                };
            },
            _ => {
                proof {
                    assert(false);
                }
            },
        }
    }

    /// The identity keys the removal-candidate query must treat as still
    /// present: computed without advancing the stage, so the caller can
    /// run the query and hand its outcome to
    /// `gather_file_paths_to_remove`.
    pub fn removal_query_keys(&self) -> (r: Vec<IsolatedPath>)
        requires
            self.wf(),
            self.stage is GatheringFilePathsToRemove,
        ensures
            self.stage matches WalkerStage::GatheringFilePathsToRemove { accepted_paths, .. }
                ==> iso_key_views(r@) == built_keys_of(
                pair_views(accepted_paths@),
                self.iso_file_path_factory.root@,
                self.iso_file_path_factory.location_id as int,
            ),
    {
        match &self.stage {
            WalkerStage::GatheringFilePathsToRemove { accepted_paths, .. } => {
                let mut scratch: Vec<NonCriticalIndexerError> = Vec::new();
                let mut pairs: Vec<(SegPath, DiskMetadata)> = Vec::new();
                let mut i: usize = 0;
                while i < accepted_paths.len()
                    invariant
                        i <= accepted_paths@.len(),
                        pair_views(pairs@) =~= pair_views(accepted_paths@.subrange(0, i as int)),
                    decreases accepted_paths@.len() - i,
                {
                    let (p, m) = &accepted_paths[i];
                    let ghost prevp = pairs@;
                    pairs.push((p.duplicate(), *m));
                    proof {
                        assert(pair_views(pairs@) =~= pair_views(prevp).push(
                            (pairs@.last().0@, pairs@.last().1),
                        ));
                        assert(pairs@.last().0@ == accepted_paths@[i as int].0@);
                        assert(pair_views(pairs@) =~= pair_views(
                            accepted_paths@.subrange(0, (i + 1) as int),
                        ));
                    }
                    i = i + 1;
                }
                proof {
                    assert(accepted_paths@.subrange(0, accepted_paths@.len() as int)
                        =~= accepted_paths@);
                    assert(pair_views(pairs@) =~= pair_views(accepted_paths@));
                }
                let (_, keys) = build_walking_entries(
                    pairs,
                    &self.iso_file_path_factory,
                    &mut scratch,
                );
                keys
            },
            _ => {
                proof {
                    assert(false);
                }
                Vec::new()
            },
        }
    }

    /// The accepted pairs become persistence-ready walking entries, and
    /// the removal-candidate query's outcome arrives: its failure is
    /// tolerated, recorded, and read as an empty removal set.
    pub fn gather_file_paths_to_remove(&mut self, fetched: Result<Vec<PubAndCasId>, String>)
        requires
            old(self).wf(),
            old(self).stage is GatheringFilePathsToRemove,
        ensures
            final(self).wf(),
            match (old(self).stage, final(self).stage) {
                (
                    WalkerStage::GatheringFilePathsToRemove {
                        accepted_paths,
                        maybe_to_keep_walking: q0,
                        accepted_ancestors: a0,
                    },
                    WalkerStage::Finalize {
                        walking_entries,
                        accepted_ancestors: a1,
                        to_remove_entries,
                        maybe_to_keep_walking: q1,
                    },
                ) => {
                    let root = old(self).iso_file_path_factory.root@;
                    let loc = old(self).iso_file_path_factory.location_id as int;
                    &&& walking_views(walking_entries@) == built_of(
                        pair_views(accepted_paths@),
                        root,
                        loc,
                    )
                    &&& a1 == a0
                    &&& q1 == q0
                    &&& (fetched matches Ok(v) ==> pubcas_views(to_remove_entries@)
                        == pubcas_views(v@))
                    &&& (fetched is Err ==> to_remove_entries@.len() == 0)
                },
                _ => false,
            },
            unchanged_but_stage(old(self), final(self)),
            ({
                let built_errs = match old(self).stage {
                    WalkerStage::GatheringFilePathsToRemove { accepted_paths, .. }
                        => built_errors_of(
                        pair_views(accepted_paths@),
                        old(self).iso_file_path_factory.root@,
                    ),
                    _ => Seq::<NonCriticalV>::empty(),
                };
                match fetched {
                    Ok(_) => err_views(final(self).errors@) == err_views(old(self).errors@)
                        + built_errs,
                    Err(m) => err_views(final(self).errors@) == (err_views(old(self).errors@)
                        + built_errs).push(NonCriticalV::FetchFilePathsToRemove(m@)),
                }
            }),
    {
        let mut taken = WalkerStage::Done;
        std::mem::swap(&mut taken, &mut self.stage);
        match taken {
            WalkerStage::GatheringFilePathsToRemove {
                accepted_paths,
                maybe_to_keep_walking,
                accepted_ancestors,
            } => {
                let (walking_entries, _keys) = build_walking_entries(
                    accepted_paths,
                    &self.iso_file_path_factory,
                    &mut self.errors,
                );
                let to_remove_entries = match fetched {
                    Ok(v) => v,
                    Err(m) => {
                        let ghost pe = self.errors@;
                        self.errors.push(NonCriticalIndexerError::FetchFilePathsToRemove(m));
                        proof {
                            assert(err_views(self.errors@) =~= err_views(pe).push(
                                self.errors@.last()@,
                            ));
                        }
                        Vec::new()
                    },
                };
                self.stage = WalkerStage::Finalize {
                    walking_entries,
                    accepted_ancestors,
                    to_remove_entries,
                    maybe_to_keep_walking,
                };
            },
            _ => {
                proof {
                    assert(false);
                }
            },
        }
    }
}

/// Fields a stage transition never touches.
pub open spec fn unchanged_but_stage(a: &WalkDirTask, b: &WalkDirTask) -> bool {
    &&& b.id == a.id
    &&& b.entry == a.entry
    &&& b.root == a.root
    &&& b.entry_iso_file_path == a.entry_iso_file_path
    &&& b.indexer_ruler == a.indexer_ruler
    &&& b.iso_file_path_factory == a.iso_file_path_factory
    &&& b.has_dispatcher == a.has_dispatcher
}

/// Whatever `collected_of` keeps was among the found paths, so it stays
/// under the root.
proof fn lemma_collected_under_root(
    paths: Seq<Seq<Seq<char>>>,
    stats: Seq<Result<DiskMetadata, Seq<char>>>,
    root: Seq<Seq<char>>,
    out: Seq<(Seq<Seq<char>>, DiskMetadata)>,
    i: int,
)
    requires
        paths.len() == stats.len(),
        forall|j: int| 0 <= j < paths.len() ==> is_strict_prefix(root, #[trigger] paths[j]),
        out == collected_of(paths, stats),
        0 <= i < out.len(),
    ensures
        is_strict_prefix(root, out[i].0),
    decreases paths.len(),
{
    if paths.len() > 0 {
        let rest = collected_of(paths.drop_last(), stats.drop_last());
        assert forall|j: int|
            0 <= j < paths.drop_last().len() implies is_strict_prefix(
            root,
            #[trigger] paths.drop_last()[j],
        ) by {
            assert(paths.drop_last()[j] == paths[j]);
        }
        match stats.last() {
            Ok(m) => {
                if i < rest.len() {
                    lemma_collected_under_root(paths.drop_last(), stats.drop_last(), root, rest, i);
                } else {
                    assert(out[i] == (paths.last(), m));
                }
            },
            Err(_) => {
                lemma_collected_under_root(paths.drop_last(), stats.drop_last(), root, rest, i);
            },
        }
    }
}

/// Whatever `assessed_of` keeps was among the pairs, so it stays under
/// the root.
proof fn lemma_assessed_under_root(
    pairs: Seq<(Seq<Seq<char>>, DiskMetadata)>,
    children: Seq<Seq<Seq<char>>>,
    rules: Seq<crate::rules::IndexerRule>,
    root: Seq<Seq<char>>,
    out: Seq<crate::walker::RuleAssessedV>,
    i: int,
)
    requires
        pairs.len() == children.len(),
        forall|j: int| 0 <= j < pairs.len() ==> is_strict_prefix(root, (#[trigger] pairs[j]).0),
        out == assessed_of(pairs, children, rules),
        0 <= i < out.len(),
    ensures
        is_strict_prefix(root, out[i].path),
    decreases pairs.len(),
{
    if pairs.len() > 0 {
        let rest = assessed_of(pairs.drop_last(), children.drop_last(), rules);
        assert forall|j: int|
            0 <= j < pairs.drop_last().len() implies is_strict_prefix(
            root,
            (#[trigger] pairs.drop_last()[j]).0,
        ) by {
            assert(pairs.drop_last()[j] == pairs[j]);
        }
        if pairs.last().1.is_symlink {
            lemma_assessed_under_root(pairs.drop_last(), children.drop_last(), rules, root, rest, i);
        } else {
            if i < rest.len() {
                lemma_assessed_under_root(
                    pairs.drop_last(),
                    children.drop_last(),
                    rules,
                    root,
                    rest,
                    i,
                );
            } else {
                assert(out[i].path == pairs.last().0);
            }
        }
    }
}


/// The queued directories a child task can be built for, in order: those
/// whose canonical identity the factory can build.
pub open spec fn dispatched_of(queued: Seq<ToWalkV>, froot: Seq<Seq<char>>) -> Seq<ToWalkV>
    decreases queued.len(),
{
    if queued.len() == 0 {
        Seq::<ToWalkV>::empty()
    } else {
        let rest = dispatched_of(queued.drop_last(), froot);
        if iso_buildable(froot, queued.last().path) {
            rest.push(queued.last())
        } else {
            rest
        }
    }
}

/// The child-task construction errors, in order.
pub open spec fn dispatch_errors_of(
    queued: Seq<ToWalkV>,
    froot: Seq<Seq<char>>,
) -> Seq<NonCriticalV>
    decreases queued.len(),
{
    if queued.len() == 0 {
        Seq::<NonCriticalV>::empty()
    } else {
        let rest = dispatch_errors_of(queued.drop_last(), froot);
        if iso_buildable(froot, queued.last().path) {
            rest
        } else {
            rest.push(
                NonCriticalV::DispatchKeepWalking(crate::path::joined(queued.last().path)),
            )
        }
    }
}

/// One constructed child task, standing for one queued directory.
pub open spec fn is_child_task_of(
    c: WalkDirTask,
    q: ToWalkV,
    root: Arc<SegPath>,
    indexer_ruler: Arc<IndexerRuler>,
    factory: IsoFilePathFactory,
) -> bool {
    &&& c.wf()
    &&& c.stage is Start
    &&& c.entry@ == q
    &&& c.root == root
    &&& c.indexer_ruler == indexer_ruler
    &&& c.iso_file_path_factory.root@ == factory.root@
    &&& c.iso_file_path_factory.location_id == factory.location_id
    &&& c.entry_iso_file_path@ == IsoFilePathFactory::spec_build(
        factory.root@,
        q.path,
        factory.location_id as int,
        true,
    )
    &&& c.has_dispatcher
    &&& c.errors@.len() == 0
}

/// Turns every queued subdirectory into a new walk task sharing the walk
/// root, rule engine and identity factory; a directory whose identity
/// cannot be built is recorded and dropped from recursion (its own
/// acceptance already stands). The caller dispatches the tasks.
fn keep_walking(
    root: &Arc<SegPath>,
    indexer_ruler: &Arc<IndexerRuler>,
    iso_file_path_factory: &IsoFilePathFactory,
    maybe_to_keep_walking: Option<Vec<ToWalkEntry>>,
    errors: &mut Vec<NonCriticalIndexerError>,
) -> (r: Vec<WalkDirTask>)
    requires
        indexer_ruler.wf(),
        maybe_to_keep_walking matches Some(v) ==> towalk_under_root(v@, root@),
    ensures
        match maybe_to_keep_walking {
            None => r@.len() == 0 && final(errors)@ == old(errors)@,
            Some(v) => {
                let ds = dispatched_of(towalk_views(v@), iso_file_path_factory.root@);
                &&& r@.len() == ds.len()
                &&& forall|i: int|
                    0 <= i < ds.len() ==> is_child_task_of(
                        #[trigger] r@[i],
                        ds[i],
                        *root,
                        *indexer_ruler,
                        *iso_file_path_factory,
                    )
                &&& err_views(final(errors)@) == err_views(old(errors)@) + dispatch_errors_of(
                    towalk_views(v@),
                    iso_file_path_factory.root@,
                )
            },
        },
{
    let to_keep_walking = match maybe_to_keep_walking {
        Some(v) => v,
        None => {
            return Vec::new();
        },
    };
    let ghost qv = towalk_views(to_keep_walking@);
    let ghost froot = iso_file_path_factory.root@;
    let mut out: Vec<WalkDirTask> = Vec::new();
    let mut k: usize = 0;
    proof {
        assert(dispatched_of(towalk_views(to_keep_walking@.subrange(0, 0)), froot)
            =~= Seq::<ToWalkV>::empty());
        assert(err_views(errors@) =~= err_views(errors@) + dispatch_errors_of(
            towalk_views(to_keep_walking@.subrange(0, 0)),
            froot,
        ));
    }
    while k < to_keep_walking.len()
        invariant
            k <= to_keep_walking@.len(),
            qv == towalk_views(to_keep_walking@),
            froot == iso_file_path_factory.root@,
            indexer_ruler.wf(),
            towalk_under_root(to_keep_walking@, root@),
            ({
                let ds = dispatched_of(towalk_views(to_keep_walking@.subrange(0, k as int)), froot);
                &&& out@.len() == ds.len()
                &&& forall|i: int|
                    0 <= i < ds.len() ==> is_child_task_of(
                        #[trigger] out@[i],
                        ds[i],
                        *root,
                        *indexer_ruler,
                        *iso_file_path_factory,
                    )
            }),
            err_views(errors@) == err_views(old(errors)@) + dispatch_errors_of(
                towalk_views(to_keep_walking@.subrange(0, k as int)),
                froot,
            ),
        decreases to_keep_walking@.len() - k,
    {
        let ghost pre = towalk_views(to_keep_walking@.subrange(0, k as int));
        let ghost post = towalk_views(to_keep_walking@.subrange(0, (k + 1) as int));
        proof {
            assert(post.drop_last() =~= pre);
            assert(post.last() == to_keep_walking@[k as int]@);
        }
        let entry = to_keep_walking[k].duplicate();
        match WalkDirTask::new(
            entry,
            arc_clone_path(root),
            arc_clone_ruler(indexer_ruler),
            iso_file_path_factory.duplicate(),
            true,
        ) {
            Ok(child) => {
                out.push(child);
                proof {
                    let ds1 = dispatched_of(post, froot);
                    assert(ds1 =~= dispatched_of(pre, froot).push(post.last()));
                    assert(dispatch_errors_of(post, froot) =~= dispatch_errors_of(pre, froot));
                    assert(is_child_task_of(
                        out@.last(),
                        post.last(),
                        *root,
                        *indexer_ruler,
                        *iso_file_path_factory,
                    ));
                }
            },
            Err(crate::iso::FilePathError::NotUnderRoot(msg)) => {
                let ghost pe = errors@;
                errors.push(NonCriticalIndexerError::DispatchKeepWalking(msg));
                proof {
                    assert(dispatched_of(post, froot) =~= dispatched_of(pre, froot));
                    assert(dispatch_errors_of(post, froot) =~= dispatch_errors_of(pre, froot).push(
                        NonCriticalV::DispatchKeepWalking(crate::path::joined(post.last().path)),
                    ));
                    assert(err_views(errors@) =~= err_views(pe).push(errors@.last()@));
                    assert(err_views(errors@) =~= err_views(old(errors)@) + dispatch_errors_of(
                        post,
                        froot,
                    ));
                }
            },
        }
        k = k + 1;
    }
    proof {
        assert(to_keep_walking@.subrange(0, to_keep_walking@.len() as int) =~= to_keep_walking@);
    }
    out
}

/// What the terminal output of one task must be, given the records the
/// existing-paths lookup returned: creates are the walking entries absent
/// from persistence, updates those whose record needs one, the removal
/// set and ancestors pass through, the total size is the saturated sum,
/// and each buildable queued directory stands in `child_tasks` as a fresh
/// task sharing the walk's collaborators.
pub open spec fn finalize_post(
    pre: WalkDirTask,
    recs: Seq<crate::db::RecView>,
    out: WalkOutput,
) -> bool {
    pre.stage matches WalkerStage::Finalize {
        walking_entries,
        accepted_ancestors,
        to_remove_entries,
        maybe_to_keep_walking,
    } ==> {
        let ws = walking_views(walking_entries@);
        let cs = crate::walker::creates_of(ws, recs);
        &&& out.to_create@.len() == cs.len()
        &&& forall|i: int|
            0 <= i < cs.len() ==> ((#[trigger] out.to_create@[i])@.iso == cs[i].iso
                && out.to_create@[i]@.metadata == cs[i].metadata
                && out.to_create@[i]@.maybe_object_id is None)
        &&& crate::walker::walked_views(out.to_update@) == crate::walker::updates_of(ws, recs)
        &&& out.total_size as nat == crate::walker::sat_u64(crate::walker::sizes_sum(ws))
        &&& pubcas_views(out.to_remove@) == pubcas_views(to_remove_entries@)
        &&& paths_views(out.accepted_ancestors@) == paths_views(accepted_ancestors@)
        &&& out.directory@ == pre.entry.path@
        &&& match (out.maybe_parent, pre.entry.maybe_parent) {
            (None, None) => true,
            (Some(a), Some(b)) => a@ == b@,
            _ => false,
        }
        &&& match maybe_to_keep_walking {
            None => out.child_tasks@.len() == 0 && err_views(out.errors@) == err_views(
                pre.errors@,
            ),
            Some(v) => {
                let qv = towalk_views(v@);
                let froot = pre.iso_file_path_factory.root@;
                let ds = dispatched_of(qv, froot);
                &&& out.child_tasks@.len() == ds.len()
                &&& forall|i: int|
                    0 <= i < ds.len() ==> is_child_task_of(
                        #[trigger] out.child_tasks@[i],
                        ds[i],
                        pre.root,
                        pre.indexer_ruler,
                        pre.iso_file_path_factory,
                    )
                &&& err_views(out.errors@) == err_views(pre.errors@) + dispatch_errors_of(
                    qv,
                    froot,
                )
            },
        }
    }
}

impl WalkDirTask {
    /// The non-interruptible last step: diffs the walking entries against
    /// the records persistence already holds and assembles the terminal
    /// output, spawning one child task per buildable queued subdirectory.
    /// A failed existing-records lookup is fatal: proceeding without it
    /// could assign duplicate identities, so the task aborts with no
    /// partial output.
    pub fn finalize(&mut self, existing: Result<Vec<FilePathRecord>, String>) -> (r: Result<
        WalkOutput,
        IndexerError,
    >)
        requires
            old(self).wf(),
            old(self).stage is Finalize,
            existing matches Ok(recs) ==> forall|i: int|
                0 <= i < recs@.len() ==> (#[trigger] recs@[i]).wf(),
        ensures
            final(self).stage is Done,
            unchanged_but_stage(old(self), final(self)),
            existing matches Err(m) ==> (r matches Err(e) && e matches IndexerError::Database(t)
                && t@ == m@),
            existing matches Ok(recs) ==> (r matches Ok(out) && finalize_post(
                *old(self),
                crate::db::rec_views(recs@),
                out,
            )),
    {
        let mut taken = WalkerStage::Done;
        std::mem::swap(&mut taken, &mut self.stage);
        match taken {
            WalkerStage::Finalize {
                walking_entries,
                accepted_ancestors,
                to_remove_entries,
                maybe_to_keep_walking,
            } => {
                let existing_records = match existing {
                    Ok(recs) => recs,
                    Err(m) => {
                        return Err(IndexerError::Database(m));
                    },
                };
                let (to_create, to_update, total_size) = segregate_creates_and_updates(
                    walking_entries,
                    &existing_records,
                );
                let mut out_errors: Vec<NonCriticalIndexerError> = Vec::new();
                std::mem::swap(&mut out_errors, &mut self.errors);
                let child_tasks = keep_walking(
                    &self.root,
                    &self.indexer_ruler,
                    &self.iso_file_path_factory,
                    maybe_to_keep_walking,
                    &mut out_errors,
                );
                Ok(
                    WalkOutput {
                        to_create,
                        to_update,
                        to_remove: to_remove_entries,
                        accepted_ancestors,
                        errors: out_errors,
                        directory: self.entry.path.duplicate(),
                        total_size,
                        maybe_parent: match &self.entry.maybe_parent {
                            Some(p) => Some(p.duplicate()),
                            None => None,
                        },
                        child_tasks,
                    },
                )
            },
            _ => {
                proof {
                    assert(false);
                }
                Err(IndexerError::Database(String::new()))
            },
        }
    }
}
} // verus!
