use vstd::prelude::*;
use crate::path::{is_strict_prefix, SegPath};

verus! {

/// A failure to build an isolated path.
#[derive(Clone, PartialEq, Eq, Debug)]
pub enum FilePathError {
    /// The path does not lie at or under the factory's location root; the
    /// payload is the offending path's text.
    NotUnderRoot(String),
}

/// The canonical, location-relative identity of a filesystem entry: the
/// stable key persistence and diffing are keyed by.
pub struct IsolatedPath {
    pub location_id: i32,
    pub rel: SegPath,
    pub is_dir: bool,
}

impl View for IsolatedPath {
    type V = (int, Seq<Seq<char>>, bool);

    open spec fn view(&self) -> (int, Seq<Seq<char>>, bool) {
        (self.location_id as int, self.rel@, self.is_dir)
    }
}

impl IsolatedPath {
    pub fn eq_iso(&self, other: &IsolatedPath) -> (r: bool)
        ensures
            r == (self@ == other@),
    {
        self.location_id == other.location_id && self.is_dir == other.is_dir && self.rel.eq_path(
            &other.rel,
        )
    }

    pub fn duplicate(&self) -> (r: IsolatedPath)
        ensures
            r@ == self@,
    {
        IsolatedPath {
            location_id: self.location_id,
            rel: self.rel.duplicate(),
            is_dir: self.is_dir,
        }
    }
}

/// Membership of an isolated-path view in a sequence of isolated paths.
pub open spec fn contains_iso(s: Seq<IsolatedPath>, v: (int, Seq<Seq<char>>, bool)) -> bool {
    exists|i: int| 0 <= i < s.len() && s[i]@ == v
}

pub fn vec_contains_iso(v: &Vec<IsolatedPath>, p: &IsolatedPath) -> (r: bool)
    ensures
        r == contains_iso(v@, p@),
{
    let mut i: usize = 0;
    while i < v.len()
        invariant
            i <= v@.len(),
            forall|j: int| 0 <= j < i ==> v@[j]@ != p@,
        decreases v@.len() - i,
    {
        if v[i].eq_iso(p) {
            assert(v@[i as int]@ == p@);
            return true;
        }
        i = i + 1;
    }
    false
}

/// Builds canonical, location-relative identities: a deterministic
/// function of the location root and the absolute path.
pub struct IsoFilePathFactory {
    pub location_id: i32,
    pub root: SegPath,
}

impl IsoFilePathFactory {
    /// The relative components of `path` under `root`, when `root` is the
    /// path itself or one of its ancestors.
    pub open spec fn spec_build(
        root: Seq<Seq<char>>,
        path: Seq<Seq<char>>,
        location_id: int,
        is_dir: bool,
    ) -> (int, Seq<Seq<char>>, bool) {
        (location_id, path.subrange(root.len() as int, path.len() as int), is_dir)
    }

    /// Succeeds exactly on paths at or under the location root, yielding
    /// the location-relative identity.
    pub fn build(&self, path: &SegPath, is_dir: bool) -> (r: Result<IsolatedPath, FilePathError>)
        ensures
            (r is Ok) == (self.root@ == path@ || is_strict_prefix(self.root@, path@)),
            r matches Ok(ip) ==> ip@ == Self::spec_build(
                self.root@,
                path@,
                self.location_id as int,
                is_dir,
            ),
            r matches Err(e) ==> e matches FilePathError::NotUnderRoot(t) && t@ == crate::path::joined(path@),
    {
        if self.root.eq_path(path) || self.root.is_strict_prefix_of(path) {
            let n = self.root.len();
            let total = path.len();
            let mut segments: Vec<String> = Vec::new();
            let mut i: usize = n;
            while i < total
                invariant
                    n <= i <= total,
                    total == path@.len(),
                    n == self.root@.len(),
                    segments.deep_view() =~= path@.subrange(n as int, i as int),
                decreases total - i,
            {
                let ghost prev = segments.deep_view();
                segments.push(path.segment(i).clone());
                proof {
                    assert(segments.deep_view() =~= prev.push(path@[i as int]));
                    assert(segments.deep_view() =~= path@.subrange(n as int, (i + 1) as int));
                }
                i = i + 1;
            }
            Ok(
                IsolatedPath {
                    location_id: self.location_id,
                    rel: SegPath::from_segments(segments),
                    is_dir,
                },
            )
        } else {
            Err(FilePathError::NotUnderRoot(path.join_display()))
        }
    }

    pub fn duplicate(&self) -> (r: IsoFilePathFactory)
        ensures
            r.location_id == self.location_id,
            r.root@ == self.root@,
    {
        IsoFilePathFactory { location_id: self.location_id, root: self.root.duplicate() }
    }
}

} // verus!
