use vstd::prelude::*;
use crate::glob::{glob_set_match, GlobSetMatcher};

verus! {

/// The four kinds of indexing rules, evaluated per entry.
#[derive(Clone, Copy, PartialEq, Eq, Structural, Debug)]
pub enum RuleKind {
    AcceptFilesByGlob,
    RejectFilesByGlob,
    AcceptIfChildrenDirectoriesArePresent,
    RejectIfChildrenDirectoriesArePresent,
}

/// How an entry can come out of rule evaluation: accepted on its own
/// merits, rejected, or accepted only because a descendant was.
#[derive(Clone, Copy, PartialEq, Eq, Structural, Debug)]
pub enum IndexerRulerAcceptKind {
    Accept,
    Reject,
    AcceptAncestors,
}

/// One rule of one kind. Each evaluation yields a boolean that means
/// "this rule accepts the entry"; rejection rules therefore yield `false`
/// exactly when their condition fires.
pub enum RulePerKind {
    /// Accepts an entry whose path text matches the glob set.
    AcceptFilesByGlob(GlobSetMatcher),
    /// Rejects an entry whose path text matches the glob set.
    RejectFilesByGlob(GlobSetMatcher),
    /// Accepts a directory one of whose child directories bears one of the
    /// configured names.
    AcceptIfChildrenDirectoriesArePresent(Vec<String>),
    /// Rejects a directory one of whose child directories bears one of the
    /// configured names.
    RejectIfChildrenDirectoriesArePresent(Vec<String>),
}

/// A named group of rules.
pub struct IndexerRule {
    pub name: String,
    pub is_default: bool,
    pub rules: Vec<RulePerKind>,
}

/// The rule engine: every configured rule group, applied in order.
pub struct IndexerRuler {
    pub rules: Vec<IndexerRule>,
}

pub open spec fn kind_of(pk: RulePerKind) -> RuleKind {
    match pk {
        RulePerKind::AcceptFilesByGlob(_) => RuleKind::AcceptFilesByGlob,
        RulePerKind::RejectFilesByGlob(_) => RuleKind::RejectFilesByGlob,
        RulePerKind::AcceptIfChildrenDirectoriesArePresent(_)
            => RuleKind::AcceptIfChildrenDirectoriesArePresent,
        RulePerKind::RejectIfChildrenDirectoriesArePresent(_)
            => RuleKind::RejectIfChildrenDirectoriesArePresent,
    }
}

/// Some configured name occurs among the child directory names.
pub open spec fn children_present(names: Seq<Seq<char>>, children: Seq<Seq<char>>) -> bool {
    exists|i: int, j: int|
        0 <= i < names.len() && 0 <= j < children.len() && names[i] == children[j]
}

/// What one rule answers for an entry: `true` means the rule accepts it.
pub open spec fn eval_rule(pk: RulePerKind, path: Seq<char>, children: Seq<Seq<char>>) -> bool {
    match pk {
        RulePerKind::AcceptFilesByGlob(m) => glob_set_match(m.patterns_view(), path),
        RulePerKind::RejectFilesByGlob(m) => !glob_set_match(m.patterns_view(), path),
        RulePerKind::AcceptIfChildrenDirectoriesArePresent(names) => children_present(
            names.deep_view(),
            children,
        ),
        RulePerKind::RejectIfChildrenDirectoriesArePresent(names) => !children_present(
            names.deep_view(),
            children,
        ),
    }
}

pub open spec fn pk_wf(pk: RulePerKind) -> bool {
    match pk {
        RulePerKind::AcceptFilesByGlob(m) => m.wf(),
        RulePerKind::RejectFilesByGlob(m) => m.wf(),
        _ => true,
    }
}

pub open spec fn rule_wf(r: IndexerRule) -> bool {
    forall|j: int| 0 <= j < r.rules@.len() ==> pk_wf(#[trigger] r.rules@[j])
}

impl IndexerRuler {
    pub open spec fn wf(&self) -> bool {
        forall|i: int| 0 <= i < self.rules@.len() ==> rule_wf(#[trigger] self.rules@[i])
    }
}

/// The answers of the rules of one kind within one group, in order.
pub open spec fn perkind_results(
    pks: Seq<RulePerKind>,
    kind: RuleKind,
    path: Seq<char>,
    children: Seq<Seq<char>>,
) -> Seq<bool>
    decreases pks.len(),
{
    if pks.len() == 0 {
        Seq::<bool>::empty()
    } else {
        let rest = perkind_results(pks.drop_last(), kind, path, children);
        if kind_of(pks.last()) == kind {
            rest.push(eval_rule(pks.last(), path, children))
        } else {
            rest
        }
    }
}

/// The answers of every configured rule of one kind, across all groups, in
/// configuration order: one boolean per registered rule of that kind.
pub open spec fn ruler_results(
    rules: Seq<IndexerRule>,
    kind: RuleKind,
    path: Seq<char>,
    children: Seq<Seq<char>>,
) -> Seq<bool>
    decreases rules.len(),
{
    if rules.len() == 0 {
        Seq::<bool>::empty()
    } else {
        ruler_results(rules.drop_last(), kind, path, children) + perkind_results(
            rules.last().rules@,
            kind,
            path,
            children,
        )
    }
}

/// How a per-kind answer vector is surfaced: absent when no answer
/// exists, else present with one answer per rule.
pub open spec fn opt_results(s: Seq<bool>) -> Option<Seq<bool>> {
    if s.len() == 0 {
        None
    } else {
        Some(s)
    }
}

/// Per-rule-kind answer vectors for one entry, as the walker consumes
/// them. A kind's vector is absent when no rule of that kind applies to
/// the entry: children-presence kinds never apply to non-directories.
pub struct RuleResults {
    pub accept_glob: Option<Vec<bool>>,
    pub reject_glob: Option<Vec<bool>>,
    pub accept_children: Option<Vec<bool>>,
    pub reject_children: Option<Vec<bool>>,
}

/// The mathematical content of per-kind answer vectors.
pub struct RuleResultsV {
    pub accept_glob: Option<Seq<bool>>,
    pub reject_glob: Option<Seq<bool>>,
    pub accept_children: Option<Seq<bool>>,
    pub reject_children: Option<Seq<bool>>,
}

impl View for RuleResults {
    type V = RuleResultsV;

    open spec fn view(&self) -> RuleResultsV {
        RuleResultsV {
            accept_glob: match self.accept_glob {
                Some(v) => Some(v@),
                None => None,
            },
            reject_glob: match self.reject_glob {
                Some(v) => Some(v@),
                None => None,
            },
            accept_children: match self.accept_children {
                Some(v) => Some(v@),
                None => None,
            },
            reject_children: match self.reject_children {
                Some(v) => Some(v@),
                None => None,
            },
        }
    }
}

/// The engine's answers for one entry at `path` (text form) with the
/// given child directory names: one answer vector per rule kind, absent
/// when no rule of the kind applies; children-presence kinds never apply
/// to non-directories.
pub open spec fn spec_apply_all(
    rules: Seq<IndexerRule>,
    path: Seq<char>,
    is_dir: bool,
    children: Seq<Seq<char>>,
) -> RuleResultsV {
    RuleResultsV {
        accept_glob: opt_results(ruler_results(rules, RuleKind::AcceptFilesByGlob, path, children)),
        reject_glob: opt_results(ruler_results(rules, RuleKind::RejectFilesByGlob, path, children)),
        accept_children: if is_dir {
            opt_results(
                ruler_results(rules, RuleKind::AcceptIfChildrenDirectoriesArePresent, path, children),
            )
        } else {
            None
        },
        reject_children: if is_dir {
            opt_results(
                ruler_results(rules, RuleKind::RejectIfChildrenDirectoriesArePresent, path, children),
            )
        } else {
            None
        },
    }
}

fn kind_matches(pk: &RulePerKind, kind: RuleKind) -> (r: bool)
    ensures
        r == (kind_of(*pk) == kind),
{
    let k = match pk {
        RulePerKind::AcceptFilesByGlob(_) => RuleKind::AcceptFilesByGlob,
        RulePerKind::RejectFilesByGlob(_) => RuleKind::RejectFilesByGlob,
        RulePerKind::AcceptIfChildrenDirectoriesArePresent(_)
            => RuleKind::AcceptIfChildrenDirectoriesArePresent,
        RulePerKind::RejectIfChildrenDirectoriesArePresent(_)
            => RuleKind::RejectIfChildrenDirectoriesArePresent,
    };
    k == kind
}

/// Whether any configured name occurs among the child directory names.
fn any_name_present(names: &Vec<String>, children: &Vec<String>) -> (r: bool)
    ensures
        r == children_present(names.deep_view(), children.deep_view()),
{
    let mut i: usize = 0;
    while i < names.len()
        invariant
            i <= names@.len(),
            forall|a: int, b: int|
                0 <= a < i && 0 <= b < children.deep_view().len()
                    ==> names.deep_view()[a] != children.deep_view()[b],
        decreases names@.len() - i,
    {
        let mut j: usize = 0;
        while j < children.len()
            invariant
                i < names@.len(),
                j <= children@.len(),
                forall|b: int| 0 <= b < j ==> names.deep_view()[i as int] != children.deep_view()[b],
            decreases children@.len() - j,
        {
            if names[i] == children[j] {
                assert(names.deep_view()[i as int] == children.deep_view()[j as int]);
                return true;
            }
            j = j + 1;
        }
        i = i + 1;
    }
    false
}

fn eval_rule_exec(pk: &RulePerKind, path_str: &String, children: &Vec<String>) -> (r: bool)
    requires
        pk_wf(*pk),
    ensures
        r == eval_rule(*pk, path_str@, children.deep_view()),
{
    match pk {
        RulePerKind::AcceptFilesByGlob(m) => m.is_match(path_str.as_str()),
        RulePerKind::RejectFilesByGlob(m) => !m.is_match(path_str.as_str()),
        RulePerKind::AcceptIfChildrenDirectoriesArePresent(names) => any_name_present(
            names,
            children,
        ),
        RulePerKind::RejectIfChildrenDirectoriesArePresent(names) => !any_name_present(
            names,
            children,
        ),
    }
}

/// All answers of one kind, across every group, in configuration order.
fn results_for_kind(
    rules: &Vec<IndexerRule>,
    kind: RuleKind,
    path_str: &String,
    children: &Vec<String>,
) -> (r: Vec<bool>)
    requires
        forall|i: int| 0 <= i < rules@.len() ==> rule_wf(#[trigger] rules@[i]),
    ensures
        r@ == ruler_results(rules@, kind, path_str@, children.deep_view()),
{
    let ghost pathv = path_str@;
    let ghost childrenv = children.deep_view();
    let mut acc: Vec<bool> = Vec::new();
    let mut i: usize = 0;
    while i < rules.len()
        invariant
            i <= rules@.len(),
            forall|k: int| 0 <= k < rules@.len() ==> rule_wf(#[trigger] rules@[k]),
            pathv == path_str@,
            childrenv == children.deep_view(),
            acc@ == ruler_results(rules@.subrange(0, i as int), kind, pathv, childrenv),
        decreases rules@.len() - i,
    {
        let group = &rules[i];
        let mut j: usize = 0;
        while j < group.rules.len()
            invariant
                i < rules@.len(),
                group == rules@[i as int],
                rule_wf(rules@[i as int]),
                j <= group.rules@.len(),
                pathv == path_str@,
                childrenv == children.deep_view(),
                acc@ == ruler_results(rules@.subrange(0, i as int), kind, pathv, childrenv)
                    + perkind_results(group.rules@.subrange(0, j as int), kind, pathv, childrenv),
            decreases group.rules@.len() - j,
        {
            let pk = &group.rules[j];
            assert(pk_wf(group.rules@[j as int]));
            if kind_matches(pk, kind) {
                let b = eval_rule_exec(pk, path_str, children);
                acc.push(b);
            }
            proof {
                let sub1 = group.rules@.subrange(0, (j + 1) as int);
                assert(sub1.drop_last() =~= group.rules@.subrange(0, j as int));
                assert(sub1.last() == group.rules@[j as int]);
            }
            j = j + 1;
        }
        proof {
            let rsub1 = rules@.subrange(0, (i + 1) as int);
            assert(rsub1.drop_last() =~= rules@.subrange(0, i as int));
            assert(rsub1.last() == rules@[i as int]);
            assert(group.rules@.subrange(0, group.rules@.len() as int) =~= group.rules@);
        }
        i = i + 1;
    }
    assert(rules@.subrange(0, rules@.len() as int) =~= rules@);
    acc
}

impl IndexerRuler {
    pub fn new(rules: Vec<IndexerRule>) -> (r: IndexerRuler)
        ensures
            r.rules == rules,
    {
        IndexerRuler { rules }
    }

    /// A ruler with no rules configured: it accepts everything.
    pub fn empty() -> (r: IndexerRuler)
        ensures
            r.rules@ =~= Seq::<IndexerRule>::empty(),
            r.wf(),
    {
        IndexerRuler { rules: Vec::new() }
    }

    /// Evaluates every configured rule against one entry.
    ///
    /// `path_str` is the entry's path text (components joined by `/`);
    /// `child_dir_names` are the names of the entry's child directories and
    /// are consulted only when the entry is a directory.
    pub fn apply_all(
        &self,
        path_str: &String,
        is_dir: bool,
        child_dir_names: &Vec<String>,
    ) -> (r: RuleResults)
        requires
            self.wf(),
        ensures
            r@ == spec_apply_all(self.rules@, path_str@, is_dir, child_dir_names.deep_view()),
    {
        let accept_glob = results_for_kind(
            &self.rules,
            RuleKind::AcceptFilesByGlob,
            path_str,
            child_dir_names,
        );
        let reject_glob = results_for_kind(
            &self.rules,
            RuleKind::RejectFilesByGlob,
            path_str,
            child_dir_names,
        );
        let accept_children: Option<Vec<bool>> = if is_dir {
            let v = results_for_kind(
                &self.rules,
                RuleKind::AcceptIfChildrenDirectoriesArePresent,
                path_str,
                child_dir_names,
            );
            if v.len() == 0 {
                None
            } else {
                Some(v)
            }
        } else {
            None
        };
        let reject_children: Option<Vec<bool>> = if is_dir {
            let v = results_for_kind(
                &self.rules,
                RuleKind::RejectIfChildrenDirectoriesArePresent,
                path_str,
                child_dir_names,
            );
            if v.len() == 0 {
                None
            } else {
                Some(v)
            }
        } else {
            None
        };
        RuleResults {
            accept_glob: if accept_glob.len() == 0 {
                None
            } else {
                Some(accept_glob)
            },
            reject_glob: if reject_glob.len() == 0 {
                None
            } else {
                Some(reject_glob)
            },
            accept_children,
            reject_children,
        }
    }
}

impl Default for IndexerRuler {
    /// Same as `IndexerRuler::empty`: no rules configured.
    fn default() -> (r: IndexerRuler)
        ensures
            r.rules@ =~= Seq::<IndexerRule>::empty(),
            r.wf(),
    {
        IndexerRuler { rules: Vec::new() }
    }
}

} // verus!
