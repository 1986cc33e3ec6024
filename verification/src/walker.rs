use vstd::prelude::*;
use crate::iso::IsolatedPath;
use crate::meta::{DiskMetadata, FilePathMetadata};
use crate::path::{contains_path, is_strict_prefix, vec_contains_path, SegPath};
use crate::rules::RuleResults;

verus! {

/// The tri-state children-acceptance signal a parent directory hands down
/// to its queued children.
#[derive(Clone, Copy, PartialEq, Eq, Structural, Debug)]
pub enum ChildrenAcceptance {
    /// No children-presence rule has spoken yet.
    Unknown,
    /// Some children-presence rule accepted an ancestor directory.
    Accepted,
    /// Children-presence rules applied to an ancestor directory and none
    /// accepted it.
    Rejected,
}

/// One directory queued for a future walk task.
pub struct ToWalkEntry {
    pub path: SegPath,
    pub parent_dir_accepted_by_its_children: ChildrenAcceptance,
    pub maybe_parent: Option<SegPath>,
}

/// The mathematical content of a queued directory.
pub struct ToWalkV {
    pub path: Seq<Seq<char>>,
    pub parent_dir_accepted_by_its_children: ChildrenAcceptance,
    pub maybe_parent: Option<Seq<Seq<char>>>,
}

impl View for ToWalkEntry {
    type V = ToWalkV;

    open spec fn view(&self) -> ToWalkV {
        ToWalkV {
            path: self.path@,
            parent_dir_accepted_by_its_children: self.parent_dir_accepted_by_its_children,
            maybe_parent: match self.maybe_parent {
                Some(p) => Some(p@),
                None => None,
            },
        }
    }
}

impl ToWalkEntry {
    pub fn duplicate(&self) -> (r: ToWalkEntry)
        ensures
            r@ == self@,
    {
        ToWalkEntry {
            path: self.path.duplicate(),
            parent_dir_accepted_by_its_children: self.parent_dir_accepted_by_its_children,
            maybe_parent: match &self.maybe_parent {
                Some(p) => Some(p.duplicate()),
                None => None,
            },
        }
    }

    /// A walk of `path` with nothing inherited and no recorded parent: how
    /// a walk is started at its root.
    pub fn from_path(path: SegPath) -> (r: ToWalkEntry)
        ensures
            r@.path == path@,
            r@.parent_dir_accepted_by_its_children == ChildrenAcceptance::Unknown,
            r@.maybe_parent is None,
    {
        ToWalkEntry {
            path,
            parent_dir_accepted_by_its_children: ChildrenAcceptance::Unknown,
            maybe_parent: None,
        }
    }
}

/// A disk-observed entry not yet reconciled with persistence.
pub struct WalkingEntry {
    pub iso_file_path: IsolatedPath,
    pub metadata: FilePathMetadata,
}

/// The mathematical content of a walking entry.
pub struct WalkingV {
    pub iso: (int, Seq<Seq<char>>, bool),
    pub metadata: FilePathMetadata,
}

impl View for WalkingEntry {
    type V = WalkingV;

    open spec fn view(&self) -> WalkingV {
        WalkingV { iso: self.iso_file_path@, metadata: self.metadata }
    }
}

/// A persistence-ready entry: identity assigned, ready to create or
/// update.
pub struct WalkedEntry {
    pub pub_id: u128,
    pub maybe_object_id: Option<i64>,
    pub iso_file_path: IsolatedPath,
    pub metadata: FilePathMetadata,
}

/// The mathematical content of a walked entry.
pub struct WalkedV {
    pub pub_id: u128,
    pub maybe_object_id: Option<i64>,
    pub iso: (int, Seq<Seq<char>>, bool),
    pub metadata: FilePathMetadata,
}

impl View for WalkedEntry {
    type V = WalkedV;

    open spec fn view(&self) -> WalkedV {
        WalkedV {
            pub_id: self.pub_id,
            maybe_object_id: self.maybe_object_id,
            iso: self.iso_file_path@,
            metadata: self.metadata,
        }
    }
}

/// Relies on `uuid::Uuid::new_v4` for fresh identities. The value is
/// random, so nothing is promised of it.
#[verifier::external_body]
pub fn generate_pub_id() -> u128 {
    uuid::Uuid::new_v4().as_u128()
}

impl WalkingEntry {
    /// A walked entry for a path absent from persistence: a fresh identity
    /// is generated and no object is linked yet.
    pub fn into_walked_new(self) -> (r: WalkedEntry)
        ensures
            r@.maybe_object_id is None,
            r@.iso == self@.iso,
            r@.metadata == self@.metadata,
    {
        WalkedEntry {
            pub_id: generate_pub_id(),
            maybe_object_id: None,
            iso_file_path: self.iso_file_path,
            metadata: self.metadata,
        }
    }

    /// A walked entry for a path already persisted: identity and linked
    /// object are copied from the existing record.
    pub fn into_walked_with(self, pub_id: u128, maybe_object_id: Option<i64>) -> (r: WalkedEntry)
        ensures
            r@.pub_id == pub_id,
            r@.maybe_object_id == maybe_object_id,
            r@.iso == self@.iso,
            r@.metadata == self@.metadata,
    {
        WalkedEntry { pub_id, maybe_object_id, iso_file_path: self.iso_file_path, metadata: self.metadata }
    }
}

/// One discovered entry with its metadata and the rule engine's answers,
/// ready for precedence processing.
pub struct RuleAssessedEntry {
    pub path: SegPath,
    pub metadata: DiskMetadata,
    pub acceptance: RuleResults,
}

/// The mathematical content of a rule-assessed entry.
pub struct RuleAssessedV {
    pub path: Seq<Seq<char>>,
    pub metadata: DiskMetadata,
    pub acceptance: crate::rules::RuleResultsV,
}

impl View for RuleAssessedEntry {
    type V = RuleAssessedV;

    open spec fn view(&self) -> RuleAssessedV {
        RuleAssessedV { path: self.path@, metadata: self.metadata, acceptance: self.acceptance@ }
    }
}

pub open spec fn some_false(v: Seq<bool>) -> bool {
    exists|i: int| 0 <= i < v.len() && !v[i]
}

pub open spec fn all_false(v: Seq<bool>) -> bool {
    forall|i: int| 0 <= i < v.len() ==> !v[i]
}

pub open spec fn some_true(v: Seq<bool>) -> bool {
    exists|i: int| 0 <= i < v.len() && v[i]
}

/// Some registered `RejectFilesByGlob` rule fired against the entry.
pub open spec fn spec_rejected_by_reject_glob(r: crate::rules::RuleResultsV) -> bool {
    match r.reject_glob {
        Some(v) => some_false(v),
        None => false,
    }
}

/// `AcceptFilesByGlob` rules are registered and none accepted the entry.
pub open spec fn spec_rejected_by_accept_glob(r: crate::rules::RuleResultsV) -> bool {
    match r.accept_glob {
        Some(v) => all_false(v),
        None => false,
    }
}

/// Some registered `RejectIfChildrenDirectoriesArePresent` rule fired.
pub open spec fn spec_rejected_by_children_directories(r: crate::rules::RuleResultsV) -> bool {
    match r.reject_children {
        Some(v) => some_false(v),
        None => false,
    }
}

/// The children-acceptance signal a directory hands its children after its
/// own children-presence rules have spoken: an accepting rule sets it to
/// `Accepted`; rules present but none accepting resolve an `Unknown`
/// signal to `Rejected`; with no such rule the inherited signal stands.
pub open spec fn spec_updated_flag(
    r: crate::rules::RuleResultsV,
    inherited: ChildrenAcceptance,
) -> ChildrenAcceptance {
    match r.accept_children {
        Some(v) => if some_true(v) {
            ChildrenAcceptance::Accepted
        } else if inherited is Unknown {
            ChildrenAcceptance::Rejected
        } else {
            inherited
        },
        None => inherited,
    }
}

/// A hard rejection excludes the entry and, for a directory, its whole
/// subtree: the directory is never queued.
pub open spec fn spec_hard_rejected(r: crate::rules::RuleResultsV, is_dir: bool) -> bool {
    spec_rejected_by_reject_glob(r) || (is_dir && spec_rejected_by_children_directories(r))
}

/// The effective children-acceptance signal for the entry itself.
pub open spec fn spec_flag_after(
    r: crate::rules::RuleResultsV,
    is_dir: bool,
    inherited: ChildrenAcceptance,
) -> ChildrenAcceptance {
    if is_dir && !spec_hard_rejected(r, is_dir) {
        spec_updated_flag(r, inherited)
    } else {
        inherited
    }
}

/// The exact precedence one entry is judged by: a firing reject glob wins
/// over everything; a directory hard-rejected by children-presence rules
/// is dropped with its subtree; then registered accept globs must accept;
/// finally an effective `Rejected` children-acceptance signal excludes the
/// entry.
pub open spec fn spec_entry_accepted(
    r: crate::rules::RuleResultsV,
    is_dir: bool,
    inherited: ChildrenAcceptance,
) -> bool {
    &&& !spec_hard_rejected(r, is_dir)
    &&& !spec_rejected_by_accept_glob(r)
    &&& !(spec_flag_after(r, is_dir, inherited) is Rejected)
}

/// A directory not hard-rejected is queued for its own walk, whatever its
/// own acceptance came to.
pub open spec fn spec_entry_queued(r: crate::rules::RuleResultsV, is_dir: bool) -> bool {
    is_dir && !spec_hard_rejected(r, is_dir)
}

pub fn rejected_by_reject_glob(acceptance: &RuleResults) -> (r: bool)
    ensures
        r == spec_rejected_by_reject_glob(acceptance@),
{
    match &acceptance.reject_glob {
        Some(v) => {
            let mut i: usize = 0;
            while i < v.len()
                invariant
                    acceptance@.reject_glob == Some(v@),
                    i <= v@.len(),
                    forall|j: int| 0 <= j < i ==> v@[j],
                decreases v@.len() - i,
            {
                if !v[i] {
                    assert(!v@[i as int]);
                    return true;
                }
                i = i + 1;
            }
            false
        },
        None => false,
    }
}

pub fn rejected_by_accept_glob(acceptance: &RuleResults) -> (r: bool)
    ensures
        r == spec_rejected_by_accept_glob(acceptance@),
{
    match &acceptance.accept_glob {
        Some(v) => {
            let mut i: usize = 0;
            while i < v.len()
                invariant
                    acceptance@.accept_glob == Some(v@),
                    i <= v@.len(),
                    forall|j: int| 0 <= j < i ==> !v@[j],
                decreases v@.len() - i,
            {
                if v[i] {
                    assert(v@[i as int]);
                    return false;
                }
                i = i + 1;
            }
            true
        },
        None => false,
    }
}

pub fn rejected_by_children_directories(acceptance: &RuleResults) -> (r: bool)
    ensures
        r == spec_rejected_by_children_directories(acceptance@),
{
    match &acceptance.reject_children {
        Some(v) => {
            let mut i: usize = 0;
            while i < v.len()
                invariant
                    acceptance@.reject_children == Some(v@),
                    i <= v@.len(),
                    forall|j: int| 0 <= j < i ==> v@[j],
                decreases v@.len() - i,
            {
                if !v[i] {
                    assert(!v@[i as int]);
                    return true;
                }
                i = i + 1;
            }
            false
        },
        None => false,
    }
}

fn any_accept_children_true(v: &Vec<bool>) -> (r: bool)
    ensures
        r == some_true(v@),
{
    let mut i: usize = 0;
    while i < v.len()
        invariant
            i <= v@.len(),
            forall|j: int| 0 <= j < i ==> !v@[j],
        decreases v@.len() - i,
    {
        if v[i] {
            assert(v@[i as int]);
            return true;
        }
        i = i + 1;
    }
    false
}

/// `a` lies strictly between the walk root and `p` on `p`'s ancestor
/// chain.
pub open spec fn strictly_between(
    root: Seq<Seq<char>>,
    a: Seq<Seq<char>>,
    p: Seq<Seq<char>>,
) -> bool {
    is_strict_prefix(a, p) && a.len() > root.len()
}

/// Every member's ancestors above the root are members too: the shape the
/// accepted-ancestors set keeps between entries, which lets accumulation
/// stop at the first ancestor already present.
pub open spec fn anc_closed(s: Seq<SegPath>, root: Seq<Seq<char>>) -> bool {
    forall|i: int, l: int|
        0 <= i < s.len() && root.len() < l < s[i]@.len() ==> contains_path(
            s,
            #[trigger] s[i]@.subrange(0, l),
        )
}

/// Every member lies strictly below the root.
pub open spec fn anc_under_root(s: Seq<SegPath>, root: Seq<Seq<char>>) -> bool {
    forall|i: int| 0 <= i < s.len() ==> is_strict_prefix(root, #[trigger] s[i]@)
}

/// No path occurs twice.
pub open spec fn path_nodup(s: Seq<SegPath>) -> bool {
    forall|i: int, j: int| 0 <= i < j < s.len() ==> s[i]@ != s[j]@
}

/// Registers the accepted path and every not-yet-registered ancestor
/// strictly between it and the walk root, stopping early at the first
/// ancestor already registered: that ancestor's own ancestors are already
/// covered by the closure the set keeps.
pub fn accept_ancestors(
    current_path: SegPath,
    metadata: DiskMetadata,
    root: &SegPath,
    accepted: &mut Vec<(SegPath, DiskMetadata)>,
    accepted_ancestors: &mut Vec<SegPath>,
)
    requires
        is_strict_prefix(root@, current_path@),
        anc_closed(old(accepted_ancestors)@, root@),
        anc_under_root(old(accepted_ancestors)@, root@),
        path_nodup(old(accepted_ancestors)@),
    ensures
        final(accepted)@.len() == old(accepted)@.len() + 1,
        forall|i: int|
            0 <= i < old(accepted)@.len() ==> final(accepted)@[i] == old(accepted)@[i],
        final(accepted)@.last().0@ == current_path@,
        final(accepted)@.last().1 == metadata,
        forall|a: Seq<Seq<char>>|
            contains_path(final(accepted_ancestors)@, a) <==> (contains_path(
                old(accepted_ancestors)@,
                a,
            ) || strictly_between(root@, a, current_path@)),
        anc_closed(final(accepted_ancestors)@, root@),
        anc_under_root(final(accepted_ancestors)@, root@),
        path_nodup(final(accepted_ancestors)@),
{
    let ghost orig = accepted_ancestors@;
    let rootn = root.len();
    let pathn = current_path.len();
    let mut l: usize = pathn - 1;
    let mut stopped_on_member = false;
    while l > rootn && !stopped_on_member
        invariant
            rootn == root@.len(),
            pathn == current_path@.len(),
            rootn < pathn,
            is_strict_prefix(root@, current_path@),
            rootn <= l <= pathn - 1,
            anc_closed(orig, root@),
            anc_under_root(orig, root@),
            path_nodup(orig),
            anc_under_root(accepted_ancestors@, root@),
            path_nodup(accepted_ancestors@),
            // what is present so far: the original members, plus the
            // ancestors of the accepted path down to (excluding) level l
            forall|a: Seq<Seq<char>>|
                #![trigger contains_path(accepted_ancestors@, a)]
                #![trigger contains_path(orig, a)]
                contains_path(accepted_ancestors@, a) <==> (contains_path(orig, a) || (
                is_strict_prefix(a, current_path@) && a.len() > l)),
            // closure, except for the chain still pending at or below l
            forall|i: int, ll: int|
                0 <= i < accepted_ancestors@.len() && root@.len() < ll
                    < accepted_ancestors@[i]@.len() ==> (contains_path(
                    accepted_ancestors@,
                    #[trigger] accepted_ancestors@[i]@.subrange(0, ll),
                ) || (is_strict_prefix(accepted_ancestors@[i]@, current_path@) && ll <= l)),
            stopped_on_member ==> rootn < l && contains_path(
                orig,
                current_path@.subrange(0, l as int),
            ),
        decreases (if stopped_on_member { 0int } else { 1int }) + l - rootn,
    {
        let anc = current_path.prefix(l);
        if vec_contains_path(accepted_ancestors, &anc) {
            proof {
                // the member found comes from the original set: everything
                // pushed so far has more than l components
                assert(anc@.len() == l);
                assert(contains_path(orig, anc@));
                assert(anc@ =~= current_path@.subrange(0, l as int));
            }
            stopped_on_member = true;
        } else {
            let ghost prev = accepted_ancestors@;
            accepted_ancestors.push(anc);
            proof {
                assert(accepted_ancestors@ =~= prev.push(anc));
                assert(anc@ == current_path@.subrange(0, l as int));
                assert(anc@.len() == l);
                assert(is_strict_prefix(root@, anc@)) by {
                    assert(anc@.subrange(0, rootn as int) =~= current_path@.subrange(
                        0,
                        rootn as int,
                    ));
                }
                assert(is_strict_prefix(anc@, current_path@));
                // membership after the push
                assert forall|a: Seq<Seq<char>>|
                    #![trigger contains_path(accepted_ancestors@, a)]
                    #![trigger contains_path(orig, a)]
                    contains_path(accepted_ancestors@, a) <==> (contains_path(orig, a) || (
                    is_strict_prefix(a, current_path@) && a.len() > l - 1)) by {
                    if contains_path(accepted_ancestors@, a) {
                        let i = choose|i: int|
                            0 <= i < accepted_ancestors@.len() && accepted_ancestors@[i]@ == a;
                        if i < prev.len() {
                            assert(prev[i]@ == a);
                            assert(contains_path(prev, a));
                        } else {
                            assert(a == anc@);
                        }
                    }
                    if contains_path(orig, a) {
                        assert(contains_path(prev, a));
                        let w = choose|w: int| 0 <= w < prev.len() && prev[w]@ == a;
                        assert(accepted_ancestors@[w]@ == a);
                        assert(contains_path(accepted_ancestors@, a));
                    }
                    if is_strict_prefix(a, current_path@) && a.len() > l - 1 {
                        if a.len() > l {
                            assert(contains_path(prev, a));
                            let w = choose|w: int| 0 <= w < prev.len() && prev[w]@ == a;
                            assert(accepted_ancestors@[w]@ == a);
                        } else {
                            assert(a.len() == l);
                            assert(a =~= current_path@.subrange(0, l as int));
                            assert(accepted_ancestors@.last()@ == a);
                        }
                        assert(contains_path(accepted_ancestors@, a));
                    }
                }
                // closure-except-pending after the push
                assert forall|i: int, ll: int|
                    0 <= i < accepted_ancestors@.len() && root@.len() < ll
                        < accepted_ancestors@[i]@.len() implies (contains_path(
                    accepted_ancestors@,
                    #[trigger] accepted_ancestors@[i]@.subrange(0, ll),
                ) || (is_strict_prefix(accepted_ancestors@[i]@, current_path@) && ll <= l - 1)) by {
                    let m = accepted_ancestors@[i]@;
                    if i < prev.len() {
                        assert(prev[i]@ == m);
                        if contains_path(prev, m.subrange(0, ll)) {
                            let w = choose|w: int|
                                0 <= w < prev.len() && prev[w]@ == m.subrange(0, ll);
                            assert(accepted_ancestors@[w]@ == m.subrange(0, ll));
                            assert(contains_path(accepted_ancestors@, m.subrange(0, ll)));
                        } else {
                            assert(is_strict_prefix(m, current_path@) && ll <= l);
                            if ll == l {
                                // the pending ancestor at level l is what
                                // was just pushed
                                assert(m.subrange(0, ll) =~= current_path@.subrange(0, l as int));
                                assert(accepted_ancestors@.last()@ == m.subrange(0, ll));
                                assert(contains_path(accepted_ancestors@, m.subrange(0, ll)));
                            }
                        }
                    } else {
                        assert(m == anc@);
                        assert(m.subrange(0, ll) =~= current_path@.subrange(0, ll));
                        assert(is_strict_prefix(m, current_path@) && ll <= l - 1);
                    }
                }
                // no duplicate was introduced
                assert forall|i: int, j: int|
                    0 <= i < j < accepted_ancestors@.len() implies accepted_ancestors@[i]@
                    != accepted_ancestors@[j]@ by {
                    if j == prev.len() {
                        assert(!contains_path(prev, anc@));
                        assert(prev[i]@ == accepted_ancestors@[i]@);
                    }
                }
            }
            l = l - 1;
        }
    }
    proof {
        // on exit every ancestor strictly between root and the path is
        // registered: either it was pushed, or the loop stopped at a
        // member of the original, closed set whose own ancestors that set
        // already holds
        assert forall|a: Seq<Seq<char>>|
            #![trigger contains_path(accepted_ancestors@, a)]
            #![trigger contains_path(orig, a)]
            contains_path(accepted_ancestors@, a) <==> (contains_path(orig, a)
                || strictly_between(root@, a, current_path@)) by {
            if strictly_between(root@, a, current_path@) {
                if a.len() > l {
                    assert(contains_path(accepted_ancestors@, a));
                } else {
                    assert(stopped_on_member);
                    let hit = current_path@.subrange(0, l as int);
                    assert(contains_path(orig, hit));
                    if a.len() < l {
                        // the original set is closed, so the shorter
                        // ancestor is an original member too
                        let i = choose|i: int| 0 <= i < orig.len() && orig[i]@ == hit;
                        assert(contains_path(orig, orig[i]@.subrange(0, a.len() as int)));
                        assert(orig[i]@.subrange(0, a.len() as int) =~= a);
                    } else {
                        assert(a =~= hit);
                    }
                    assert(contains_path(orig, a));
                    assert(contains_path(accepted_ancestors@, a));
                }
            }
            if contains_path(accepted_ancestors@, a) && !contains_path(orig, a) {
                assert(is_strict_prefix(a, current_path@) && a.len() > l);
                assert(a.len() > rootn);
            }
        }
        // and the closure holds outright again
        assert forall|i: int, ll: int|
            0 <= i < accepted_ancestors@.len() && root@.len() < ll
                < accepted_ancestors@[i]@.len() implies contains_path(
            accepted_ancestors@,
            #[trigger] accepted_ancestors@[i]@.subrange(0, ll),
        ) by {
            let m = accepted_ancestors@[i]@;
            if !contains_path(accepted_ancestors@, m.subrange(0, ll)) {
                assert(is_strict_prefix(m, current_path@) && ll <= l);
                assert(m.subrange(0, ll) =~= current_path@.subrange(0, ll));
                if stopped_on_member {
                    let hit = current_path@.subrange(0, l as int);
                    assert(contains_path(orig, hit));
                    let w = choose|w: int| 0 <= w < orig.len() && orig[w]@ == hit;
                    if ll < l {
                        assert(contains_path(orig, orig[w]@.subrange(0, ll)));
                        assert(orig[w]@.subrange(0, ll) =~= current_path@.subrange(0, ll));
                    }
                    assert(contains_path(orig, current_path@.subrange(0, ll)));
                    assert(contains_path(accepted_ancestors@, m.subrange(0, ll)));
                } else {
                    assert(l == rootn);
                    assert(false);
                }
            }
        }
    }
    accepted.push((current_path, metadata));
}


/// The views of a sequence of accepted (path, metadata) pairs.
pub open spec fn pair_views(s: Seq<(SegPath, DiskMetadata)>) -> Seq<(Seq<Seq<char>>, DiskMetadata)> {
    Seq::new(s.len(), |i: int| (s[i].0@, s[i].1))
}

/// The views of a sequence of queued directories.
pub open spec fn towalk_views(s: Seq<ToWalkEntry>) -> Seq<ToWalkV> {
    Seq::new(s.len(), |i: int| s[i]@)
}

/// The views of a sequence of rule-assessed entries.
pub open spec fn assessed_views(s: Seq<RuleAssessedEntry>) -> Seq<RuleAssessedV> {
    Seq::new(s.len(), |i: int| s[i]@)
}

/// The accepted (path, metadata) pairs among the assessed entries, in
/// order.
pub open spec fn accepted_of(
    s: Seq<RuleAssessedV>,
    inherited: ChildrenAcceptance,
) -> Seq<(Seq<Seq<char>>, DiskMetadata)>
    decreases s.len(),
{
    if s.len() == 0 {
        Seq::<(Seq<Seq<char>>, DiskMetadata)>::empty()
    } else {
        let rest = accepted_of(s.drop_last(), inherited);
        let e = s.last();
        if spec_entry_accepted(e.acceptance, e.metadata.is_dir, inherited) {
            rest.push((e.path, e.metadata))
        } else {
            rest
        }
    }
}

/// The directories queued for their own walks, in order, each carrying
/// its effective children-acceptance signal and its parent.
pub open spec fn queued_of(
    s: Seq<RuleAssessedV>,
    inherited: ChildrenAcceptance,
    source: Seq<Seq<char>>,
) -> Seq<ToWalkV>
    decreases s.len(),
{
    if s.len() == 0 {
        Seq::<ToWalkV>::empty()
    } else {
        let rest = queued_of(s.drop_last(), inherited, source);
        let e = s.last();
        if spec_entry_queued(e.acceptance, e.metadata.is_dir) {
            rest.push(
                ToWalkV {
                    path: e.path,
                    parent_dir_accepted_by_its_children: spec_flag_after(
                        e.acceptance,
                        e.metadata.is_dir,
                        inherited,
                    ),
                    maybe_parent: Some(source),
                },
            )
        } else {
            rest
        }
    }
}

/// `a` is a proper ancestor, above the root, of some accepted entry.
pub open spec fn ancestor_of_accepted(
    s: Seq<RuleAssessedV>,
    inherited: ChildrenAcceptance,
    root: Seq<Seq<char>>,
    a: Seq<Seq<char>>,
) -> bool {
    exists|i: int|
        0 <= i < s.len() && spec_entry_accepted(
            (#[trigger] s[i]).acceptance,
            s[i].metadata.is_dir,
            inherited,
        ) && strictly_between(root, a, s[i].path)
}

/// Applies the directory-specific rules to one directory entry: a firing
/// `RejectIfChildrenDirectoriesArePresent` rule hard-rejects it (nothing
/// else changes); otherwise its children-presence rules update the
/// children-acceptance signal and, when recursion is on, the directory is
/// queued with that signal and its parent.
pub fn process_and_maybe_reject_by_directory_rules(
    current_path: &SegPath,
    parent: &SegPath,
    acceptance: &RuleResults,
    accept_by_children_dir: &mut ChildrenAcceptance,
    maybe_to_keep_walking: &mut Option<Vec<ToWalkEntry>>,
) -> (rejected: bool)
    ensures
        rejected == spec_rejected_by_children_directories(acceptance@),
        rejected ==> *final(accept_by_children_dir) == *old(accept_by_children_dir),
        rejected ==> *final(maybe_to_keep_walking) == *old(maybe_to_keep_walking),
        !rejected ==> *final(accept_by_children_dir) == spec_updated_flag(
            acceptance@,
            *old(accept_by_children_dir),
        ),
        ((*old(maybe_to_keep_walking)) is None) == ((*final(maybe_to_keep_walking)) is None),
        !rejected ==> match ((*old(maybe_to_keep_walking)), (*final(maybe_to_keep_walking))) {
            (Some(v0), Some(v1)) => towalk_views(v1@) == towalk_views(v0@).push(
                ToWalkV {
                    path: current_path@,
                    parent_dir_accepted_by_its_children: spec_updated_flag(
                        acceptance@,
                        *old(accept_by_children_dir),
                    ),
                    maybe_parent: Some(parent@),
                },
            ),
            (None, None) => true,
            _ => false,
        },
{
    if rejected_by_children_directories(acceptance) {
        return true;
    }
    match &acceptance.accept_children {
        Some(accepted_by_children_rules) => {
            if any_accept_children_true(accepted_by_children_rules) {
                *accept_by_children_dir = ChildrenAcceptance::Accepted;
            } else {
                if matches!(*accept_by_children_dir, ChildrenAcceptance::Unknown) {
                    *accept_by_children_dir = ChildrenAcceptance::Rejected;
                }
            }
        },
        None => {},
    }
    match maybe_to_keep_walking {
        Some(to_keep_walking) => {
            let ghost prev = to_keep_walking@;
            to_keep_walking.push(
                ToWalkEntry {
                    path: current_path.duplicate(),
                    parent_dir_accepted_by_its_children: *accept_by_children_dir,
                    maybe_parent: Some(parent.duplicate()),
                },
            );
            proof {
                assert(towalk_views(to_keep_walking@) =~= towalk_views(prev).push(
                    to_keep_walking@.last()@,
                ));
            }
        },
        None => {},
    }
    false
}

/// Applies the full acceptance precedence to every assessed entry of one
/// directory: reject-glob first, then directory rules (with queueing),
/// then accept-globs, then the inherited children-acceptance signal; each
/// accepted path is registered together with its not-yet-registered
/// ancestors up to (excluding) the walk root.
pub fn process_rules_results(
    source_directory: &SegPath,
    root: &SegPath,
    parent_dir_accepted_by_its_children: ChildrenAcceptance,
    entries: Vec<RuleAssessedEntry>,
    maybe_to_keep_walking: &mut Option<Vec<ToWalkEntry>>,
) -> (r: (Vec<(SegPath, DiskMetadata)>, Vec<SegPath>))
    requires
        forall|i: int|
            0 <= i < entries@.len() ==> is_strict_prefix(root@, (#[trigger] entries@[i])@.path),
        (*old(maybe_to_keep_walking)) matches Some(v) ==> v@.len() == 0,
    ensures
        pair_views(r.0@) == accepted_of(
            assessed_views(entries@),
            parent_dir_accepted_by_its_children,
        ),
        forall|a: Seq<Seq<char>>|
            #![trigger contains_path(r.1@, a)]
            #![trigger ancestor_of_accepted(assessed_views(entries@), parent_dir_accepted_by_its_children, root@, a)]
            contains_path(r.1@, a) <==> ancestor_of_accepted(
                assessed_views(entries@),
                parent_dir_accepted_by_its_children,
                root@,
                a,
            ),
        path_nodup(r.1@),
        anc_under_root(r.1@, root@),
        ((*old(maybe_to_keep_walking)) is None) == ((*final(maybe_to_keep_walking)) is None),
        (*final(maybe_to_keep_walking)) matches Some(v) ==> towalk_views(v@) == queued_of(
            assessed_views(entries@),
            parent_dir_accepted_by_its_children,
            source_directory@,
        ),
{
    let mut accepted: Vec<(SegPath, DiskMetadata)> = Vec::new();
    let mut accepted_ancestors: Vec<SegPath> = Vec::new();
    let mut k: usize = 0;
    proof {
        assert(assessed_views(entries@.subrange(0, 0)) =~= Seq::<RuleAssessedV>::empty());
        assert(pair_views(accepted@) =~= accepted_of(
            assessed_views(entries@.subrange(0, 0)),
            parent_dir_accepted_by_its_children,
        ));
        if (*maybe_to_keep_walking) is Some {
            let v = (*maybe_to_keep_walking)->Some_0;
            assert(towalk_views(v@) =~= queued_of(
                assessed_views(entries@.subrange(0, 0)),
                parent_dir_accepted_by_its_children,
                source_directory@,
            ));
        }
    }
    while k < entries.len()
        invariant
            k <= entries@.len(),
            forall|i: int|
                0 <= i < entries@.len() ==> is_strict_prefix(root@, (#[trigger] entries@[i])@.path),
            pair_views(accepted@) == accepted_of(
                assessed_views(entries@.subrange(0, k as int)),
                parent_dir_accepted_by_its_children,
            ),
            forall|a: Seq<Seq<char>>|
                #![trigger contains_path(accepted_ancestors@, a)]
                contains_path(accepted_ancestors@, a) <==> ancestor_of_accepted(
                    assessed_views(entries@.subrange(0, k as int)),
                    parent_dir_accepted_by_its_children,
                    root@,
                    a,
                ),
            path_nodup(accepted_ancestors@),
            anc_under_root(accepted_ancestors@, root@),
            anc_closed(accepted_ancestors@, root@),
            ((*old(maybe_to_keep_walking)) is None) == ((*maybe_to_keep_walking) is None),
            (*maybe_to_keep_walking) matches Some(v) ==> towalk_views(v@) == queued_of(
                assessed_views(entries@.subrange(0, k as int)),
                parent_dir_accepted_by_its_children,
                source_directory@,
            ),
        decreases entries@.len() - k,
    {
        let ghost pre_views = assessed_views(entries@.subrange(0, k as int));
        let ghost post_views = assessed_views(entries@.subrange(0, (k + 1) as int));
        proof {
            assert(post_views.drop_last() =~= pre_views);
            assert(post_views.last() == entries@[k as int]@);
        }
        let entry = &entries[k];
        let ghost ev = entry@;
        let is_dir = entry.metadata.is_dir;
        let mut accept_by_children_dir = parent_dir_accepted_by_its_children;
        let mut skip = false;
        if rejected_by_reject_glob(&entry.acceptance) {
            skip = true;
        } else {
            if is_dir {
                if process_and_maybe_reject_by_directory_rules(
                    &entry.path,
                    source_directory,
                    &entry.acceptance,
                    &mut accept_by_children_dir,
                    maybe_to_keep_walking,
                ) {
                    skip = true;
                }
            }
            if !skip {
                if rejected_by_accept_glob(&entry.acceptance) {
                    skip = true;
                }
            }
            if !skip {
                if !matches!(accept_by_children_dir, ChildrenAcceptance::Rejected) {
                    accept_ancestors(
                        entry.path.duplicate(),
                        entry.metadata,
                        root,
                        &mut accepted,
                        &mut accepted_ancestors,
                    );
                }
            }
        }
        proof {
            let inh = parent_dir_accepted_by_its_children;
            let acc_now = spec_entry_accepted(ev.acceptance, ev.metadata.is_dir, inh);
            // the flag the body computed is the effective one
            if !spec_hard_rejected(ev.acceptance, ev.metadata.is_dir) {
                assert(accept_by_children_dir == spec_flag_after(
                    ev.acceptance,
                    ev.metadata.is_dir,
                    inh,
                ));
            }
            // accepted pairs
            if acc_now {
                assert(pair_views(accepted@) =~= accepted_of(pre_views, inh).push(
                    (ev.path, ev.metadata),
                ));
                assert(pair_views(accepted@) == accepted_of(post_views, inh));
            } else {
                assert(pair_views(accepted@) =~= accepted_of(pre_views, inh));
                assert(pair_views(accepted@) == accepted_of(post_views, inh));
            }
            // ancestors membership
            assert forall|a: Seq<Seq<char>>|
                #![trigger contains_path(accepted_ancestors@, a)]
                contains_path(accepted_ancestors@, a) <==> ancestor_of_accepted(
                    post_views,
                    inh,
                    root@,
                    a,
                ) by {
                if contains_path(accepted_ancestors@, a) {
                    if ancestor_of_accepted(pre_views, inh, root@, a) {
                        let i = choose|i: int|
                            0 <= i < pre_views.len() && spec_entry_accepted(
                                pre_views[i].acceptance,
                                pre_views[i].metadata.is_dir,
                                inh,
                            ) && strictly_between(root@, a, pre_views[i].path);
                        assert(post_views[i] == pre_views[i]);
                        assert(ancestor_of_accepted(post_views, inh, root@, a));
                    } else {
                        assert(acc_now && strictly_between(root@, a, ev.path));
                        assert(post_views[k as int] == ev);
                        assert(ancestor_of_accepted(post_views, inh, root@, a));
                    }
                }
                if ancestor_of_accepted(post_views, inh, root@, a) {
                    let i = choose|i: int|
                        0 <= i < post_views.len() && spec_entry_accepted(
                            post_views[i].acceptance,
                            post_views[i].metadata.is_dir,
                            inh,
                        ) && strictly_between(root@, a, post_views[i].path);
                    if i < pre_views.len() {
                        assert(pre_views[i] == post_views[i]);
                        assert(ancestor_of_accepted(pre_views, inh, root@, a));
                        assert(contains_path(accepted_ancestors@, a));
                    } else {
                        assert(post_views[i] == ev);
                        assert(contains_path(accepted_ancestors@, a));
                    }
                }
            }
            // queued directories
            if (*maybe_to_keep_walking) is Some {
                let v = (*maybe_to_keep_walking)->Some_0;
                let q = spec_entry_queued(ev.acceptance, ev.metadata.is_dir);
                if q {
                    assert(towalk_views(v@) == queued_of(pre_views, inh, source_directory@).push(
                        ToWalkV {
                            path: ev.path,
                            parent_dir_accepted_by_its_children: spec_flag_after(
                                ev.acceptance,
                                ev.metadata.is_dir,
                                inh,
                            ),
                            maybe_parent: Some(source_directory@),
                        },
                    ));
                    assert(towalk_views(v@) == queued_of(post_views, inh, source_directory@));
                } else {
                    assert(towalk_views(v@) == queued_of(post_views, inh, source_directory@));
                }
            }
        }
        k = k + 1;
    }
    proof {
        assert(entries@.subrange(0, entries@.len() as int) =~= entries@);
        assert(assessed_views(entries@.subrange(0, entries@.len() as int)) =~= assessed_views(
            entries@,
        ));
    }
    (accepted, accepted_ancestors)
}


/// The stored size column's value, with an absent column read as zero.
pub open spec fn rec_size(rec: crate::db::RecView) -> nat {
    match rec.size_bytes {
        Some(b) => crate::db::be_u64_of(b),
        None => 0,
    }
}

pub open spec fn abs_diff(a: int, b: int) -> int {
    if a >= b {
        a - b
    } else {
        b - a
    }
}

/// When a persisted record must be updated from the observed entry: the
/// record's inode and modification-time columns are set, and the decoded
/// inode differs, or the stored modification time differs from the
/// observed one by more than one millisecond, or the stored hidden flag
/// (unset read as the default) differs — except that a directory whose
/// observed size disagrees with the stored one is left alone, because
/// directory sizes from a direct stat are unreliable and recomputed
/// elsewhere.
pub open spec fn spec_needs_update(e: WalkingV, rec: crate::db::RecView) -> bool {
    &&& rec.inode_bytes is Some
    &&& rec.date_modified_ms is Some
    &&& {
        let changed = crate::db::be_u64_of(rec.inode_bytes->Some_0) != e.metadata.inode
            || abs_diff(e.metadata.modified_at_ms as int, rec.date_modified_ms->Some_0 as int) > 1
            || e.metadata.hidden != (match rec.hidden {
            Some(h) => h,
            None => false,
        });
        let dir_size_differs = e.iso.2 && e.metadata.size_in_bytes != rec_size(rec);
        changed && !dir_size_differs
    }
}

/// The views of a sequence of walking entries.
pub open spec fn walking_views(s: Seq<WalkingEntry>) -> Seq<WalkingV> {
    Seq::new(s.len(), |i: int| s[i]@)
}

/// The views of a sequence of walked entries.
pub open spec fn walked_views(s: Seq<WalkedEntry>) -> Seq<WalkedV> {
    Seq::new(s.len(), |i: int| s[i]@)
}

/// The walking entries absent from persistence, in order: those that
/// become creates.
pub open spec fn creates_of(s: Seq<WalkingV>, recs: Seq<crate::db::RecView>) -> Seq<WalkingV>
    decreases s.len(),
{
    if s.len() == 0 {
        Seq::<WalkingV>::empty()
    } else {
        let rest = creates_of(s.drop_last(), recs);
        if crate::db::find_record(recs, s.last().iso) is None {
            rest.push(s.last())
        } else {
            rest
        }
    }
}

/// The walked entries the update set consists of, in order: each walking
/// entry whose persisted record needs an update, carrying the record's
/// identity and linked object.
pub open spec fn updates_of(s: Seq<WalkingV>, recs: Seq<crate::db::RecView>) -> Seq<WalkedV>
    decreases s.len(),
{
    if s.len() == 0 {
        Seq::<WalkedV>::empty()
    } else {
        let rest = updates_of(s.drop_last(), recs);
        let e = s.last();
        match crate::db::find_record(recs, e.iso) {
            Some(rec) => if spec_needs_update(e, rec) {
                rest.push(
                    WalkedV {
                        pub_id: rec.pub_id,
                        maybe_object_id: rec.object_id,
                        iso: e.iso,
                        metadata: e.metadata,
                    },
                )
            } else {
                rest
            },
            None => rest,
        }
    }
}

/// The total observed size across all walking entries.
pub open spec fn sizes_sum(s: Seq<WalkingV>) -> nat
    decreases s.len(),
{
    if s.len() == 0 {
        0
    } else {
        sizes_sum(s.drop_last()) + s.last().metadata.size_in_bytes as nat
    }
}

/// Saturation of an unbounded count into a machine word.
pub open spec fn sat_u64(n: nat) -> nat {
    if n <= u64::MAX {
        n
    } else {
        u64::MAX as nat
    }
}

fn needs_update(e: &WalkingEntry, rec: &crate::db::FilePathRecord) -> (r: bool)
    requires
        rec.wf(),
    ensures
        r == spec_needs_update(e@, rec@),
{
    match (&rec.inode_bytes, rec.date_modified_ms) {
        (Some(inode_bytes), Some(date_modified_ms)) => {
            let stored_inode = crate::db::u64_from_be_bytes(inode_bytes);
            let delta: i128 = (e.metadata.modified_at_ms as i128) - (date_modified_ms as i128);
            let abs_delta: i128 = if delta < 0 {
                -delta
            } else {
                delta
            };
            let stored_hidden = match rec.hidden {
                Some(h) => h,
                None => false,
            };
            let changed = stored_inode != e.metadata.inode || abs_delta > 1 || e.metadata.hidden
                != stored_hidden;
            let stored_size = match &rec.size_bytes {
                Some(size_bytes) => crate::db::u64_from_be_bytes(size_bytes),
                None => 0,
            };
            let dir_size_differs = e.iso_file_path.is_dir && e.metadata.size_in_bytes
                != stored_size;
            changed && !dir_size_differs
        },
        _ => false,
    }
}

/// Diffs the walking entries against the records persistence already
/// holds: entries with no record become creates with fresh identities;
/// entries whose record needs an update become updates carrying the
/// record's identity; the total observed size is accumulated across every
/// entry, saturating at the machine word.
pub fn segregate_creates_and_updates(
    walking_entries: Vec<WalkingEntry>,
    existing: &Vec<crate::db::FilePathRecord>,
) -> (r: (Vec<WalkedEntry>, Vec<WalkedEntry>, u64))
    requires
        forall|i: int| 0 <= i < existing@.len() ==> (#[trigger] existing@[i]).wf(),
    ensures
        ({
            let ws = walking_views(walking_entries@);
            let rvs = crate::db::rec_views(existing@);
            let cs = creates_of(ws, rvs);
            &&& r.0@.len() == cs.len()
            &&& forall|i: int|
                0 <= i < cs.len() ==> ((#[trigger] r.0@[i])@.iso == cs[i].iso && r.0@[i]@.metadata
                    == cs[i].metadata && r.0@[i]@.maybe_object_id is None)
            &&& walked_views(r.1@) == updates_of(ws, rvs)
            &&& r.2 as nat == sat_u64(sizes_sum(ws))
        }),
{
    let ghost ws = walking_views(walking_entries@);
    let ghost rvs = crate::db::rec_views(existing@);
    let mut to_create: Vec<WalkedEntry> = Vec::new();
    let mut to_update: Vec<WalkedEntry> = Vec::new();
    let mut total_size: u64 = 0;
    let mut k: usize = 0;
    proof {
        assert(walking_views(walking_entries@.subrange(0, 0)) =~= Seq::<WalkingV>::empty());
        assert(walked_views(to_update@) =~= updates_of(
            walking_views(walking_entries@.subrange(0, 0)),
            rvs,
        ));
    }
    while k < walking_entries.len()
        invariant
            k <= walking_entries@.len(),
            ws == walking_views(walking_entries@),
            rvs == crate::db::rec_views(existing@),
            forall|i: int| 0 <= i < existing@.len() ==> (#[trigger] existing@[i]).wf(),
            ({
                let pre = walking_views(walking_entries@.subrange(0, k as int));
                let cs = creates_of(pre, rvs);
                &&& to_create@.len() == cs.len()
                &&& forall|i: int|
                    0 <= i < cs.len() ==> ((#[trigger] to_create@[i])@.iso == cs[i].iso
                        && to_create@[i]@.metadata == cs[i].metadata
                        && to_create@[i]@.maybe_object_id is None)
                &&& walked_views(to_update@) == updates_of(pre, rvs)
                &&& total_size as nat == sat_u64(sizes_sum(pre))
            }),
        decreases walking_entries@.len() - k,
    {
        let ghost pre = walking_views(walking_entries@.subrange(0, k as int));
        let ghost post = walking_views(walking_entries@.subrange(0, (k + 1) as int));
        proof {
            assert(post.drop_last() =~= pre);
            assert(post.last() == walking_entries@[k as int]@);
        }
        let entry = &walking_entries[k];
        let entry_dup = WalkingEntry {
            iso_file_path: entry.iso_file_path.duplicate(),
            metadata: entry.metadata,
        };
        total_size = crate::saturating_add_u64(total_size, entry.metadata.size_in_bytes);
        match crate::db::find_record_index(existing, &entry.iso_file_path) {
            None => {
                to_create.push(entry_dup.into_walked_new());
                proof {
                    assert(creates_of(post, rvs) =~= creates_of(pre, rvs).push(post.last()));
                }
            },
            Some(i) => {
                let rec = &existing[i];
                if needs_update(entry, rec) {
                    to_update.push(entry_dup.into_walked_with(rec.pub_id, rec.object_id));
                    proof {
                        assert(walked_views(to_update@) =~= updates_of(pre, rvs).push(
                            to_update@.last()@,
                        ));
                        assert(walked_views(to_update@) == updates_of(post, rvs));
                    }
                } else {
                    proof {
                        assert(walked_views(to_update@) == updates_of(post, rvs));
                    }
                }
            },
        }
        k = k + 1;
    }
    proof {
        assert(walking_entries@.subrange(0, walking_entries@.len() as int) =~= walking_entries@);
    }
    (to_create, to_update, total_size)
}

/// The views of a sequence of paths.
pub open spec fn paths_views(s: Seq<SegPath>) -> Seq<Seq<Seq<char>>> {
    Seq::new(s.len(), |i: int| s[i]@)
}

/// The views of a sequence of stat results.
pub open spec fn stat_views(s: Seq<Result<DiskMetadata, String>>) -> Seq<Result<
    DiskMetadata,
    Seq<char>,
>> {
    Seq::new(
        s.len(),
        |i: int|
            match s[i] {
                Ok(m) => Ok(m),
                Err(e) => Err(e@),
            },
    )
}

/// The (path, metadata) pairs whose stat succeeded, in order.
pub open spec fn collected_of(
    paths: Seq<Seq<Seq<char>>>,
    stats: Seq<Result<DiskMetadata, Seq<char>>>,
) -> Seq<(Seq<Seq<char>>, DiskMetadata)>
    decreases paths.len(),
{
    if paths.len() == 0 || paths.len() != stats.len() {
        Seq::<(Seq<Seq<char>>, DiskMetadata)>::empty()
    } else {
        let rest = collected_of(paths.drop_last(), stats.drop_last());
        match stats.last() {
            Ok(m) => rest.push((paths.last(), m)),
            Err(_) => rest,
        }
    }
}

/// The stat errors, in order.
pub open spec fn collect_errors_of(
    stats: Seq<Result<DiskMetadata, Seq<char>>>,
) -> Seq<crate::error::NonCriticalV>
    decreases stats.len(),
{
    if stats.len() == 0 {
        Seq::<crate::error::NonCriticalV>::empty()
    } else {
        let rest = collect_errors_of(stats.drop_last());
        match stats.last() {
            Ok(_) => rest,
            Err(e) => rest.push(crate::error::NonCriticalV::Metadata(e)),
        }
    }
}

/// Pairs every discovered path with its stat result: failures are
/// non-fatal, recorded and dropped from further processing.
pub fn collect_metadata(
    found_paths: Vec<SegPath>,
    stats: Vec<Result<DiskMetadata, String>>,
    errors: &mut Vec<crate::error::NonCriticalIndexerError>,
) -> (r: Vec<(SegPath, DiskMetadata)>)
    requires
        stats@.len() == found_paths@.len(),
    ensures
        pair_views(r@) == collected_of(paths_views(found_paths@), stat_views(stats@)),
        crate::error::err_views(final(errors)@) == crate::error::err_views(old(errors)@)
            + collect_errors_of(stat_views(stats@)),
{
    let mut out: Vec<(SegPath, DiskMetadata)> = Vec::new();
    let mut k: usize = 0;
    proof {
        assert(pair_views(out@) =~= collected_of(
            paths_views(found_paths@.subrange(0, 0)),
            stat_views(stats@.subrange(0, 0)),
        ));
        assert(crate::error::err_views(errors@) =~= crate::error::err_views(errors@)
            + collect_errors_of(stat_views(stats@.subrange(0, 0))));
    }
    while k < found_paths.len()
        invariant
            k <= found_paths@.len(),
            stats@.len() == found_paths@.len(),
            pair_views(out@) == collected_of(
                paths_views(found_paths@.subrange(0, k as int)),
                stat_views(stats@.subrange(0, k as int)),
            ),
            crate::error::err_views(errors@) == crate::error::err_views(old(errors)@)
                + collect_errors_of(stat_views(stats@.subrange(0, k as int))),
        decreases found_paths@.len() - k,
    {
        proof {
            assert(paths_views(found_paths@.subrange(0, (k + 1) as int)).drop_last()
                =~= paths_views(found_paths@.subrange(0, k as int)));
            assert(stat_views(stats@.subrange(0, (k + 1) as int)).drop_last() =~= stat_views(
                stats@.subrange(0, k as int),
            ));
            assert(paths_views(found_paths@.subrange(0, (k + 1) as int)).last()
                == found_paths@[k as int]@);
            assert(stat_views(stats@.subrange(0, (k + 1) as int)).last() == stat_views(
                stats@,
            )[k as int]);
        }
        match &stats[k] {
            Ok(m) => {
                out.push((found_paths[k].duplicate(), *m));
                proof {
                    assert(pair_views(out@) =~= collected_of(
                        paths_views(found_paths@.subrange(0, (k + 1) as int)),
                        stat_views(stats@.subrange(0, (k + 1) as int)),
                    ));
                }
            },
            Err(e) => {
                let ghost pe = errors@;
                errors.push(crate::error::NonCriticalIndexerError::Metadata(e.clone()));
                proof {
                    let ev = crate::error::NonCriticalV::Metadata(e@);
                    assert(stat_views(stats@)[k as int] == Err::<DiskMetadata, Seq<char>>(e@));
                    assert(collect_errors_of(stat_views(stats@.subrange(0, (k + 1) as int)))
                        =~= collect_errors_of(stat_views(stats@.subrange(0, k as int))).push(ev));
                    assert(crate::error::err_views(errors@) =~= crate::error::err_views(pe).push(
                        ev,
                    ));
                    assert(crate::error::err_views(errors@) =~= crate::error::err_views(
                        old(errors)@,
                    ) + collect_errors_of(stat_views(stats@.subrange(0, (k + 1) as int))));
                }
            },
        }
        proof {
            assert(pair_views(out@) == collected_of(
                paths_views(found_paths@.subrange(0, (k + 1) as int)),
                stat_views(stats@.subrange(0, (k + 1) as int)),
            ));
            assert(crate::error::err_views(errors@) == crate::error::err_views(old(errors)@)
                + collect_errors_of(stat_views(stats@.subrange(0, (k + 1) as int))));
        }
        k = k + 1;
    }
    proof {
        assert(found_paths@.subrange(0, found_paths@.len() as int) =~= found_paths@);
        assert(stats@.subrange(0, stats@.len() as int) =~= stats@);
    }
    out
}

/// The rule engine's answers for every non-symlink entry, in order:
/// symlinks are unconditionally discarded.
pub open spec fn assessed_of(
    pairs: Seq<(Seq<Seq<char>>, DiskMetadata)>,
    children: Seq<Seq<Seq<char>>>,
    rules: Seq<crate::rules::IndexerRule>,
) -> Seq<RuleAssessedV>
    decreases pairs.len(),
{
    if pairs.len() == 0 || pairs.len() != children.len() {
        Seq::<RuleAssessedV>::empty()
    } else {
        let rest = assessed_of(pairs.drop_last(), children.drop_last(), rules);
        let (p, m) = pairs.last();
        if m.is_symlink {
            rest
        } else {
            rest.push(
                RuleAssessedV {
                    path: p,
                    metadata: m,
                    acceptance: crate::rules::spec_apply_all(
                        rules,
                        crate::path::joined(p),
                        m.is_dir,
                        children.last(),
                    ),
                },
            )
        }
    }
}

/// Evaluates every configured rule against every entry, discarding
/// symlinks first. `child_dir_names` aligns with the entries and carries,
/// for each directory, the names of its child directories (it is ignored
/// for files and for symlinks). The engine itself cannot fail here, so no
/// entry is dropped for a rule error.
pub fn apply_indexer_rules(
    paths_and_metadatas: Vec<(SegPath, DiskMetadata)>,
    indexer_ruler: &crate::rules::IndexerRuler,
    child_dir_names: Vec<Vec<String>>,
) -> (r: Vec<RuleAssessedEntry>)
    requires
        indexer_ruler.wf(),
        child_dir_names@.len() == paths_and_metadatas@.len(),
    ensures
        assessed_views(r@) == assessed_of(
            pair_views(paths_and_metadatas@),
            child_dir_names.deep_view(),
            indexer_ruler.rules@,
        ),
{
    let mut out: Vec<RuleAssessedEntry> = Vec::new();
    let mut k: usize = 0;
    proof {
        assert(assessed_views(out@) =~= assessed_of(
            pair_views(paths_and_metadatas@.subrange(0, 0)),
            child_dir_names.deep_view().subrange(0, 0),
            indexer_ruler.rules@,
        ));
    }
    while k < paths_and_metadatas.len()
        invariant
            k <= paths_and_metadatas@.len(),
            child_dir_names@.len() == paths_and_metadatas@.len(),
            indexer_ruler.wf(),
            assessed_views(out@) == assessed_of(
                pair_views(paths_and_metadatas@.subrange(0, k as int)),
                child_dir_names.deep_view().subrange(0, k as int),
                indexer_ruler.rules@,
            ),
        decreases paths_and_metadatas@.len() - k,
    {
        let ghost pre_p = pair_views(paths_and_metadatas@.subrange(0, k as int));
        let ghost post_p = pair_views(paths_and_metadatas@.subrange(0, (k + 1) as int));
        let ghost pre_c = child_dir_names.deep_view().subrange(0, k as int);
        let ghost post_c = child_dir_names.deep_view().subrange(0, (k + 1) as int);
        proof {
            assert(post_p.drop_last() =~= pre_p);
            assert(post_c.drop_last() =~= pre_c);
            assert(post_p.last() == (paths_and_metadatas@[k as int].0@,
            paths_and_metadatas@[k as int].1));
            assert(post_c.last() == child_dir_names.deep_view()[k as int]);
            assert(child_dir_names.deep_view()[k as int] == child_dir_names@[k as int].deep_view());
        }
        let (path, metadata) = &paths_and_metadatas[k];
        if !metadata.is_symlink {
            let path_str = path.join_display();
            let acceptance = indexer_ruler.apply_all(&path_str, metadata.is_dir, &child_dir_names[k]);
            out.push(RuleAssessedEntry { path: path.duplicate(), metadata: *metadata, acceptance });
            proof {
                assert(assessed_views(out@) =~= assessed_of(post_p, post_c, indexer_ruler.rules@));
            }
        } else {
            proof {
                assert(assessed_views(out@) =~= assessed_of(post_p, post_c, indexer_ruler.rules@));
            }
        }
        k = k + 1;
    }
    proof {
        assert(paths_and_metadatas@.subrange(0, paths_and_metadatas@.len() as int)
            =~= paths_and_metadatas@);
        assert(child_dir_names.deep_view().subrange(0, child_dir_names.deep_view().len() as int)
            =~= child_dir_names.deep_view());
    }
    out
}

/// The persistence-ready projection of observed metadata.
pub open spec fn fpm_of(m: DiskMetadata) -> FilePathMetadata {
    FilePathMetadata {
        inode: m.inode,
        size_in_bytes: m.size_in_bytes,
        created_at_ms: m.created_at_ms,
        modified_at_ms: m.modified_at_ms,
        hidden: m.hidden,
    }
}

/// Whether the factory can build an identity for the path.
pub open spec fn iso_buildable(root: Seq<Seq<char>>, p: Seq<Seq<char>>) -> bool {
    root == p || is_strict_prefix(root, p)
}

/// The walking entries built from the accepted pairs, in order, dropping
/// pairs whose identity cannot be built.
pub open spec fn built_of(
    pairs: Seq<(Seq<Seq<char>>, DiskMetadata)>,
    root: Seq<Seq<char>>,
    location_id: int,
) -> Seq<WalkingV>
    decreases pairs.len(),
{
    if pairs.len() == 0 {
        Seq::<WalkingV>::empty()
    } else {
        let rest = built_of(pairs.drop_last(), root, location_id);
        let (p, m) = pairs.last();
        if iso_buildable(root, p) {
            rest.push(
                WalkingV {
                    iso: crate::iso::IsoFilePathFactory::spec_build(root, p, location_id, m.is_dir),
                    metadata: fpm_of(m),
                },
            )
        } else {
            rest
        }
    }
}

/// The identity-build errors, in order.
pub open spec fn built_errors_of(
    pairs: Seq<(Seq<Seq<char>>, DiskMetadata)>,
    root: Seq<Seq<char>>,
) -> Seq<crate::error::NonCriticalV>
    decreases pairs.len(),
{
    if pairs.len() == 0 {
        Seq::<crate::error::NonCriticalV>::empty()
    } else {
        let rest = built_errors_of(pairs.drop_last(), root);
        let (p, _) = pairs.last();
        if iso_buildable(root, p) {
            rest
        } else {
            rest.push(crate::error::NonCriticalV::IsoFilePath(crate::path::joined(p)))
        }
    }
}

/// The views of a sequence of isolated paths.
pub open spec fn iso_key_views(s: Seq<IsolatedPath>) -> Seq<(int, Seq<Seq<char>>, bool)> {
    Seq::new(s.len(), |i: int| s[i]@)
}

/// The identity keys of built walking entries, in order.
pub open spec fn built_keys_of(
    pairs: Seq<(Seq<Seq<char>>, DiskMetadata)>,
    root: Seq<Seq<char>>,
    location_id: int,
) -> Seq<(int, Seq<Seq<char>>, bool)> {
    Seq::new(built_of(pairs, root, location_id).len(), |i: int| built_of(pairs, root, location_id)[i].iso)
}

/// Converts each accepted (path, metadata) pair into a persistence-ready
/// walking entry keyed by its canonical identity; a pair whose identity
/// cannot be built is recorded and dropped. Also yields the identity keys
/// of everything kept, for the removal-candidate query.
pub fn build_walking_entries(
    accepted_paths: Vec<(SegPath, DiskMetadata)>,
    iso_file_path_factory: &crate::iso::IsoFilePathFactory,
    errors: &mut Vec<crate::error::NonCriticalIndexerError>,
) -> (r: (Vec<WalkingEntry>, Vec<IsolatedPath>))
    ensures
        walking_views(r.0@) == built_of(
            pair_views(accepted_paths@),
            iso_file_path_factory.root@,
            iso_file_path_factory.location_id as int,
        ),
        iso_key_views(r.1@) == built_keys_of(
            pair_views(accepted_paths@),
            iso_file_path_factory.root@,
            iso_file_path_factory.location_id as int,
        ),
        crate::error::err_views(final(errors)@) == crate::error::err_views(old(errors)@)
            + built_errors_of(pair_views(accepted_paths@), iso_file_path_factory.root@),
{
    let ghost root = iso_file_path_factory.root@;
    let ghost loc = iso_file_path_factory.location_id as int;
    let mut walking: Vec<WalkingEntry> = Vec::new();
    let mut keys: Vec<IsolatedPath> = Vec::new();
    let mut k: usize = 0;
    proof {
        assert(walking_views(walking@) =~= built_of(
            pair_views(accepted_paths@.subrange(0, 0)),
            root,
            loc,
        ));
        assert(iso_key_views(keys@) =~= built_keys_of(
            pair_views(accepted_paths@.subrange(0, 0)),
            root,
            loc,
        ));
        assert(crate::error::err_views(errors@) =~= crate::error::err_views(errors@)
            + built_errors_of(pair_views(accepted_paths@.subrange(0, 0)), root));
    }
    while k < accepted_paths.len()
        invariant
            k <= accepted_paths@.len(),
            root == iso_file_path_factory.root@,
            loc == iso_file_path_factory.location_id as int,
            walking_views(walking@) == built_of(
                pair_views(accepted_paths@.subrange(0, k as int)),
                root,
                loc,
            ),
            iso_key_views(keys@) == built_keys_of(
                pair_views(accepted_paths@.subrange(0, k as int)),
                root,
                loc,
            ),
            crate::error::err_views(errors@) == crate::error::err_views(old(errors)@)
                + built_errors_of(pair_views(accepted_paths@.subrange(0, k as int)), root),
        decreases accepted_paths@.len() - k,
    {
        let ghost pre = pair_views(accepted_paths@.subrange(0, k as int));
        let ghost post = pair_views(accepted_paths@.subrange(0, (k + 1) as int));
        proof {
            assert(post.drop_last() =~= pre);
            assert(post.last() == (accepted_paths@[k as int].0@, accepted_paths@[k as int].1));
        }
        let (path, metadata) = &accepted_paths[k];
        match iso_file_path_factory.build(path, metadata.is_dir) {
            Ok(iso_file_path) => {
                keys.push(iso_file_path.duplicate());
                walking.push(
                    WalkingEntry { iso_file_path, metadata: metadata.to_file_path_metadata() },
                );
                proof {
                    assert(walking_views(walking@) =~= built_of(post, root, loc));
                    assert(built_of(post, root, loc) =~= built_of(pre, root, loc).push(
                        walking@.last()@,
                    ));
                    assert(built_keys_of(post, root, loc) =~= built_keys_of(pre, root, loc).push(
                        walking@.last()@.iso,
                    ));
                    assert(iso_key_views(keys@) =~= built_keys_of(post, root, loc));
                    assert(built_errors_of(post, root) =~= built_errors_of(pre, root));
                    assert(crate::error::err_views(errors@) =~= crate::error::err_views(
                        old(errors)@,
                    ) + built_errors_of(post, root));
                }
            },
            Err(crate::iso::FilePathError::NotUnderRoot(msg)) => {
                let ghost pe = errors@;
                let ghost msgv = msg@;
                errors.push(crate::error::NonCriticalIndexerError::IsoFilePath(msg));
                proof {
                    let ev = crate::error::NonCriticalV::IsoFilePath(msgv);
                    assert(msgv == crate::path::joined(accepted_paths@[k as int].0@));
                    assert(built_of(post, root, loc) =~= built_of(pre, root, loc));
                    assert(walking_views(walking@) =~= built_of(post, root, loc));
                    assert(built_keys_of(post, root, loc) =~= built_keys_of(pre, root, loc));
                    assert(iso_key_views(keys@) =~= built_keys_of(post, root, loc));
                    assert(built_errors_of(post, root) =~= built_errors_of(pre, root).push(ev));
                    assert(crate::error::err_views(errors@) =~= crate::error::err_views(pe).push(
                        ev,
                    ));
                    assert(crate::error::err_views(errors@) =~= crate::error::err_views(
                        old(errors)@,
                    ) + built_errors_of(post, root));
                }
            },
        }
        k = k + 1;
    }
    proof {
        assert(accepted_paths@.subrange(0, accepted_paths@.len() as int) =~= accepted_paths@);
    }
    (walking, keys)
}

impl WalkedEntry {
    /// The persisted record this entry settles into once committed: the
    /// shape the next walk's existing-records lookup sees for it.
    pub fn to_record(&self) -> (r: crate::db::FilePathRecord)
        ensures
            r@.pub_id == self@.pub_id,
            r@.object_id == self@.maybe_object_id,
            r@.iso == self@.iso,
            r@.inode_bytes matches Some(b) && crate::db::be_u64_of(b) == self@.metadata.inode,
            r@.date_modified_ms == Some(self@.metadata.modified_at_ms),
            r@.hidden == Some(self@.metadata.hidden),
            r@.size_bytes matches Some(b) && crate::db::be_u64_of(b)
                == self@.metadata.size_in_bytes,
            r@.cas_id is None,
            r.wf(),
    {
        crate::db::FilePathRecord {
            pub_id: self.pub_id,
            object_id: self.maybe_object_id,
            iso: self.iso_file_path.duplicate(),
            inode_bytes: Some(crate::db::u64_to_be_bytes(self.metadata.inode)),
            date_modified_ms: Some(self.metadata.modified_at_ms),
            hidden: Some(self.metadata.hidden),
            size_bytes: Some(crate::db::u64_to_be_bytes(self.metadata.size_in_bytes)),
            cas_id: None,
        }
    }
}
} // verus!
