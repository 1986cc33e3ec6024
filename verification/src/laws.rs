use vstd::prelude::*;
use crate::db::{find_record, is_direct_child_of, removal_of, RecView};
use crate::meta::DiskMetadata;
use crate::path::{contains_path, SegPath};
use crate::glob::glob_set_match;
use crate::rules::{
    eval_rule, kind_of, perkind_results, ruler_results, spec_apply_all, IndexerRule, RuleKind,
    RulePerKind, RuleResultsV,
};
use crate::walker::{
    abs_diff, accepted_of, rec_size, assessed_of, creates_of, path_nodup, queued_of, sizes_sum, some_false,
    some_true, spec_entry_accepted, spec_entry_queued, spec_flag_after, spec_hard_rejected,
    spec_needs_update, spec_rejected_by_accept_glob, spec_rejected_by_reject_glob, updates_of,
    ChildrenAcceptance, RuleAssessedV, ToWalkV, WalkingV,
};

verus! {

proof fn lemma_some_false_in_perkind(
    pks: Seq<RulePerKind>,
    kind: RuleKind,
    path: Seq<char>,
    children: Seq<Seq<char>>,
    j: int,
)
    requires
        0 <= j < pks.len(),
        kind_of(pks[j]) == kind,
        !eval_rule(pks[j], path, children),
    ensures
        some_false(perkind_results(pks, kind, path, children)),
    decreases pks.len(),
{
    let res = perkind_results(pks, kind, path, children);
    if j == pks.len() - 1 {
        assert(pks.last() == pks[j]);
        assert(res.last() == eval_rule(pks[j], path, children));
        assert(!res[res.len() - 1]);
    } else {
        assert(pks.drop_last()[j] == pks[j]);
        lemma_some_false_in_perkind(pks.drop_last(), kind, path, children, j);
        let rest = perkind_results(pks.drop_last(), kind, path, children);
        let w = choose|w: int| 0 <= w < rest.len() && !rest[w];
        if kind_of(pks.last()) == kind {
            assert(res == rest.push(eval_rule(pks.last(), path, children)));
            assert(!res[w]);
        } else {
            assert(!res[w]);
        }
    }
}

proof fn lemma_some_false_in_ruler(
    rules: Seq<IndexerRule>,
    kind: RuleKind,
    path: Seq<char>,
    children: Seq<Seq<char>>,
    i: int,
    j: int,
)
    requires
        0 <= i < rules.len(),
        0 <= j < rules[i].rules@.len(),
        kind_of(rules[i].rules@[j]) == kind,
        !eval_rule(rules[i].rules@[j], path, children),
    ensures
        some_false(ruler_results(rules, kind, path, children)),
    decreases rules.len(),
{
    let res = ruler_results(rules, kind, path, children);
    let pk_res = perkind_results(rules.last().rules@, kind, path, children);
    let rest = ruler_results(rules.drop_last(), kind, path, children);
    if i == rules.len() - 1 {
        assert(rules.last() == rules[i]);
        lemma_some_false_in_perkind(rules[i].rules@, kind, path, children, j);
        let w = choose|w: int| 0 <= w < pk_res.len() && !pk_res[w];
        assert(res == rest + pk_res);
        assert(!res[rest.len() + w]);
    } else {
        assert(rules.drop_last()[i] == rules[i]);
        lemma_some_false_in_ruler(rules.drop_last(), kind, path, children, i, j);
        let w = choose|w: int| 0 <= w < rest.len() && !rest[w];
        assert(res == rest + pk_res);
        assert(!res[w]);
    }
}

/// A firing `RejectFilesByGlob` rule always outranks any matching
/// `AcceptFilesByGlob` rule for the same path: whatever the accept rules
/// answer, whatever the entry is and whatever acceptance it inherited,
/// the entry is rejected and, if a directory, never queued.
pub proof fn lemma_reject_glob_outranks_accept(
    rules: Seq<IndexerRule>,
    path: Seq<char>,
    is_dir: bool,
    children: Seq<Seq<char>>,
    inherited: ChildrenAcceptance,
    i: int,
    j: int,
)
    requires
        0 <= i < rules.len(),
        0 <= j < rules[i].rules@.len(),
        rules[i].rules@[j] matches RulePerKind::RejectFilesByGlob(m) && glob_set_match(
            m.patterns_view(),
            path,
        ),
    ensures
        !spec_entry_accepted(spec_apply_all(rules, path, is_dir, children), is_dir, inherited),
        !spec_entry_queued(spec_apply_all(rules, path, is_dir, children), is_dir),
{
    let pk = rules[i].rules@[j];
    assert(kind_of(pk) == RuleKind::RejectFilesByGlob);
    assert(!eval_rule(pk, path, children));
    lemma_some_false_in_ruler(rules, RuleKind::RejectFilesByGlob, path, children, i, j);
    let flat = ruler_results(rules, RuleKind::RejectFilesByGlob, path, children);
    assert(flat.len() > 0) by {
        let w = choose|w: int| 0 <= w < flat.len() && !flat[w];
    }
    let r = spec_apply_all(rules, path, is_dir, children);
    assert(r.reject_glob == Some(flat));
    assert(spec_rejected_by_reject_glob(r));
    assert(spec_hard_rejected(r, is_dir));
}

/// A directory one of whose children-presence rules accepts it is
/// accepted itself (unless a glob rule rejects it), hands `Accepted` down
/// to its children, and is queued so its full subtree is walked.
pub proof fn lemma_children_presence_accepts(r: RuleResultsV, inherited: ChildrenAcceptance)
    requires
        !spec_hard_rejected(r, true),
        !spec_rejected_by_accept_glob(r),
        r.accept_children matches Some(v) && some_true(v),
    ensures
        spec_entry_accepted(r, true, inherited),
        spec_entry_queued(r, true),
        spec_flag_after(r, true, inherited) == ChildrenAcceptance::Accepted,
{
}

/// A directory whose children-presence rules all decline, with nothing
/// yet inherited, is excluded from the accepted set, hands `Rejected`
/// down to its children, and is still queued: its own children are still
/// evaluated under that signal.
pub proof fn lemma_children_presence_declines_yet_queues(r: RuleResultsV)
    requires
        !spec_hard_rejected(r, true),
        r.accept_children matches Some(v) && !some_true(v),
    ensures
        !spec_entry_accepted(r, true, ChildrenAcceptance::Unknown),
        spec_entry_queued(r, true),
        spec_flag_after(r, true, ChildrenAcceptance::Unknown) == ChildrenAcceptance::Rejected,
{
}

/// A stored modification time that differs from the observed one by more
/// than one millisecond moves the entry into the update set, provided the
/// directory-size exemption does not apply.
pub proof fn lemma_update_on_modified_time(e: WalkingV, rec: RecView)
    requires
        rec.inode_bytes is Some,
        rec.date_modified_ms is Some,
        abs_diff(e.metadata.modified_at_ms as int, rec.date_modified_ms->Some_0 as int) > 1,
        !(e.iso.2 && e.metadata.size_in_bytes != rec_size(rec)),
    ensures
        spec_needs_update(e, rec),
{
}

/// A flipped recorded hidden flag moves the entry into the update set,
/// provided the directory-size exemption does not apply.
pub proof fn lemma_update_on_hidden_flip(e: WalkingV, rec: RecView)
    requires
        rec.inode_bytes is Some,
        rec.date_modified_ms is Some,
        e.metadata.hidden != (match rec.hidden {
            Some(h) => h,
            None => false,
        }),
        !(e.iso.2 && e.metadata.size_in_bytes != rec_size(rec)),
    ensures
        spec_needs_update(e, rec),
{
}

/// A directory entry whose only discrepancy is its size is never moved
/// into the update set: directory sizes from a direct stat are
/// unreliable and recomputed elsewhere.
pub proof fn lemma_no_update_on_directory_size_only(e: WalkingV, rec: RecView)
    requires
        rec.inode_bytes matches Some(b) && crate::db::be_u64_of(b) == e.metadata.inode,
        rec.date_modified_ms matches Some(d) && abs_diff(
            e.metadata.modified_at_ms as int,
            d as int,
        ) <= 1,
        e.metadata.hidden == (match rec.hidden {
            Some(h) => h,
            None => false,
        }),
    ensures
        !spec_needs_update(e, rec),
{
}

/// Re-running the diff against a store that already holds a matching,
/// up-to-date record for every walking entry yields empty create and
/// update sets.
pub proof fn lemma_unchanged_entries_produce_empty_diff(ws: Seq<WalkingV>, recs: Seq<RecView>)
    requires
        forall|i: int|
            0 <= i < ws.len() ==> (find_record(recs, (#[trigger] ws[i]).iso) matches Some(rec)
                && !spec_needs_update(ws[i], rec)),
    ensures
        creates_of(ws, recs).len() == 0,
        updates_of(ws, recs).len() == 0,
    decreases ws.len(),
{
    if ws.len() > 0 {
        assert forall|i: int|
            0 <= i < ws.drop_last().len() implies (find_record(
            recs,
            (#[trigger] ws.drop_last()[i]).iso,
        ) matches Some(rec) && !spec_needs_update(ws.drop_last()[i], rec)) by {
            assert(ws.drop_last()[i] == ws[i]);
        }
        lemma_unchanged_entries_produce_empty_diff(ws.drop_last(), recs);
        assert(ws.last() == ws[ws.len() - 1]);
    }
}

/// Re-running the removal query when every persisted record under the
/// directory is still among the accepted keys yields an empty removal
/// set.
pub proof fn lemma_all_present_yields_no_removals(
    recs: Seq<RecView>,
    parent: (int, Seq<Seq<char>>, bool),
    keys: Seq<(int, Seq<Seq<char>>, bool)>,
)
    requires
        forall|i: int|
            0 <= i < recs.len() && is_direct_child_of((#[trigger] recs[i]).iso, parent)
                ==> keys.contains(recs[i].iso),
    ensures
        removal_of(recs, parent, keys).len() == 0,
    decreases recs.len(),
{
    if recs.len() > 0 {
        assert forall|i: int|
            0 <= i < recs.drop_last().len() && is_direct_child_of(
            (#[trigger] recs.drop_last()[i]).iso,
            parent,
        ) implies keys.contains(recs.drop_last()[i].iso) by {
            assert(recs.drop_last()[i] == recs[i]);
        }
        lemma_all_present_yields_no_removals(recs.drop_last(), parent, keys);
        assert(recs.last() == recs[recs.len() - 1]);
    }
}

/// Ancestor accumulation registers each ancestor exactly once: in a
/// duplicate-free accepted-ancestors set, a registered ancestor occupies
/// exactly one position, however many accepted paths share it.
pub proof fn lemma_ancestor_registered_once(anc: Seq<SegPath>, a: Seq<Seq<char>>)
    requires
        path_nodup(anc),
        contains_path(anc, a),
    ensures
        exists|i: int| 0 <= i < anc.len() && (#[trigger] anc[i])@ == a,
        forall|i: int, j: int|
            0 <= i < anc.len() && 0 <= j < anc.len() && (#[trigger] anc[i])@ == a && (
            #[trigger] anc[j])@ == a ==> i == j,
{
    assert forall|i: int, j: int|
        0 <= i < anc.len() && 0 <= j < anc.len() && (#[trigger] anc[i])@ == a && (
    #[trigger] anc[j])@ == a implies i == j by {
        if i < j {
            assert(anc[i]@ != anc[j]@);
        }
        if j < i {
            assert(anc[j]@ != anc[i]@);
        }
    }
}

/// The non-symlink entries of a listing, in order.
pub open spec fn non_symlinks_of(
    pairs: Seq<(Seq<Seq<char>>, DiskMetadata)>,
) -> Seq<(Seq<Seq<char>>, DiskMetadata)>
    decreases pairs.len(),
{
    if pairs.len() == 0 {
        Seq::<(Seq<Seq<char>>, DiskMetadata)>::empty()
    } else {
        let rest = non_symlinks_of(pairs.drop_last());
        if pairs.last().1.is_symlink {
            rest
        } else {
            rest.push(pairs.last())
        }
    }
}

/// The non-symlink directories of a listing as queue entries, in order,
/// each handed the inherited signal unchanged.
pub open spec fn all_dirs_queued(
    pairs: Seq<(Seq<Seq<char>>, DiskMetadata)>,
    inherited: ChildrenAcceptance,
    source: Seq<Seq<char>>,
) -> Seq<ToWalkV>
    decreases pairs.len(),
{
    if pairs.len() == 0 {
        Seq::<ToWalkV>::empty()
    } else {
        let rest = all_dirs_queued(pairs.drop_last(), inherited, source);
        let (p, m) = pairs.last();
        if !m.is_symlink && m.is_dir {
            rest.push(
                ToWalkV {
                    path: p,
                    parent_dir_accepted_by_its_children: inherited,
                    maybe_parent: Some(source),
                },
            )
        } else {
            rest
        }
    }
}

/// With no rules configured, a directory's walk accepts exactly its
/// complete listing (symlinks aside) and queues exactly its
/// subdirectories with nothing inherited: applied along the recursion,
/// the union of accepted entries over a task and its spawned children is
/// the complete recursive listing from the walk root.
pub proof fn lemma_no_rules_accepts_everything(
    pairs: Seq<(Seq<Seq<char>>, DiskMetadata)>,
    children: Seq<Seq<Seq<char>>>,
    source: Seq<Seq<char>>,
)
    requires
        pairs.len() == children.len(),
    ensures
        accepted_of(
            assessed_of(pairs, children, Seq::<IndexerRule>::empty()),
            ChildrenAcceptance::Unknown,
        ) == non_symlinks_of(pairs),
        queued_of(
            assessed_of(pairs, children, Seq::<IndexerRule>::empty()),
            ChildrenAcceptance::Unknown,
            source,
        ) == all_dirs_queued(pairs, ChildrenAcceptance::Unknown, source),
    decreases pairs.len(),
{
    let rules = Seq::<IndexerRule>::empty();
    let inh = ChildrenAcceptance::Unknown;
    if pairs.len() == 0 {
        assert(accepted_of(assessed_of(pairs, children, rules), inh) =~= non_symlinks_of(pairs));
        assert(queued_of(assessed_of(pairs, children, rules), inh, source) =~= all_dirs_queued(
            pairs,
            inh,
            source,
        ));
    } else {
        lemma_no_rules_accepts_everything(pairs.drop_last(), children.drop_last(), source);
        let (p, m) = pairs.last();
        let av = assessed_of(pairs, children, rules);
        let pre = assessed_of(pairs.drop_last(), children.drop_last(), rules);
        if m.is_symlink {
            assert(av == pre);
        } else {
            let acc = spec_apply_all(rules, crate::path::joined(p), m.is_dir, children.last());
            assert(ruler_results(rules, RuleKind::AcceptFilesByGlob, crate::path::joined(p),
            children.last()).len() == 0);
            assert(acc.accept_glob is None);
            assert(acc.reject_glob is None);
            assert(acc.accept_children is None);
            assert(acc.reject_children is None);
            assert(av == pre.push(
                RuleAssessedV { path: p, metadata: m, acceptance: acc },
            ));
            assert(av.drop_last() =~= pre);
            assert(av.last() == (RuleAssessedV { path: p, metadata: m, acceptance: acc }));
            assert(spec_entry_accepted(acc, m.is_dir, inh));
            assert(spec_flag_after(acc, m.is_dir, inh) == inh);
            assert(accepted_of(av, inh) =~= accepted_of(pre, inh).push((p, m)));
            if m.is_dir {
                assert(spec_entry_queued(acc, m.is_dir));
                assert(queued_of(av, inh, source) =~= queued_of(pre, inh, source).push(
                    ToWalkV {
                        path: p,
                        parent_dir_accepted_by_its_children: inh,
                        maybe_parent: Some(source),
                    },
                ));
            } else {
                assert(queued_of(av, inh, source) =~= queued_of(pre, inh, source));
            }
        }
        assert(accepted_of(av, inh) =~= non_symlinks_of(pairs));
        assert(queued_of(av, inh, source) =~= all_dirs_queued(pairs, inh, source));
    }
}

/// The saturated size total is exact whenever the true total fits the
/// machine word.
pub proof fn lemma_total_size_exact_when_small(ws: Seq<WalkingV>)
    requires
        sizes_sum(ws) <= u64::MAX,
    ensures
        crate::walker::sat_u64(sizes_sum(ws)) == sizes_sum(ws),
{
}

} // verus!
