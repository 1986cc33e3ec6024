use vstd::prelude::*;
use vstd::string::StringExecFns;

verus! {

/// A filesystem path, represented as its sequence of components.
///
/// The walker never interprets a component's text; paths are compared,
/// extended and truncated component-wise, and a component sequence is the
/// identity the whole crate reasons about. Its view is the sequence of the
/// components' character sequences.
pub struct SegPath {
    pub segments: Vec<String>,
}

impl View for SegPath {
    type V = Seq<Seq<char>>;

    open spec fn view(&self) -> Seq<Seq<char>> {
        self.segments.deep_view()
    }
}

/// `a` names a proper ancestor-or-self chain position: `a` is a strict
/// prefix of `b` when `b` lies strictly below `a` in the tree.
pub open spec fn is_strict_prefix(a: Seq<Seq<char>>, b: Seq<Seq<char>>) -> bool {
    a.len() < b.len() && a == b.subrange(0, a.len() as int)
}

/// The path's components joined by `/`, the textual form rules match on.
pub open spec fn joined(s: Seq<Seq<char>>) -> Seq<char>
    decreases s.len(),
{
    if s.len() == 0 {
        Seq::<char>::empty()
    } else if s.len() == 1 {
        s[0]
    } else {
        joined(s.drop_last()) + seq!['/'] + s.last()
    }
}

impl SegPath {
    pub fn new() -> (r: SegPath)
        ensures
            r@ =~= Seq::<Seq<char>>::empty(),
    {
        SegPath { segments: Vec::new() }
    }

    pub fn from_segments(segments: Vec<String>) -> (r: SegPath)
        ensures
            r@ == segments.deep_view(),
    {
        SegPath { segments }
    }

    pub fn len(&self) -> (r: usize)
        ensures
            r == self@.len(),
    {
        self.segments.len()
    }

    pub fn segment(&self, i: usize) -> (r: &String)
        requires
            i < self@.len(),
        ensures
            r@ == self@[i as int],
    {
        &self.segments[i]
    }

    /// The path's last component, its name in the parent directory.
    pub fn name(&self) -> (r: &String)
        requires
            self@.len() > 0,
        ensures
            r@ == self@.last(),
    {
        &self.segments[self.segments.len() - 1]
    }

    pub fn push_segment(&mut self, seg: String)
        ensures
            final(self)@ =~= old(self)@.push(seg@),
    {
        self.segments.push(seg);
    }

    pub fn duplicate(&self) -> (r: SegPath)
        ensures
            r@ =~= self@,
    {
        let mut segments: Vec<String> = Vec::new();
        let mut i: usize = 0;
        while i < self.segments.len()
            invariant
                i <= self.segments.len(),
                segments.deep_view() =~= self.segments.deep_view().subrange(0, i as int),
            decreases self.segments.len() - i,
        {
            let ghost prev = segments.deep_view();
            segments.push(self.segments[i].clone());
            proof {
                assert(segments.deep_view() =~= prev.push(self.segments@[i as int]@));
                assert(segments.deep_view() =~= self.segments.deep_view().subrange(
                    0,
                    (i + 1) as int,
                ));
            }
            i = i + 1;
        }
        assert(segments.deep_view() =~= self.segments.deep_view());
        SegPath { segments }
    }

    /// The prefix made of the first `n` components.
    pub fn prefix(&self, n: usize) -> (r: SegPath)
        requires
            n <= self@.len(),
        ensures
            r@ =~= self@.subrange(0, n as int),
    {
        let mut segments: Vec<String> = Vec::new();
        let mut i: usize = 0;
        while i < n
            invariant
                n <= self.segments.len(),
                i <= n,
                segments.deep_view() =~= self.segments.deep_view().subrange(0, i as int),
            decreases n - i,
        {
            let ghost prev = segments.deep_view();
            segments.push(self.segments[i].clone());
            proof {
                assert(segments.deep_view() =~= prev.push(self.segments@[i as int]@));
                assert(segments.deep_view() =~= self.segments.deep_view().subrange(
                    0,
                    (i + 1) as int,
                ));
            }
            i = i + 1;
        }
        SegPath { segments }
    }

    pub fn eq_path(&self, other: &SegPath) -> (r: bool)
        ensures
            r == (self@ == other@),
    {
        if self.segments.len() != other.segments.len() {
            assert(self@.len() != other@.len());
            return false;
        }
        let n = self.segments.len();
        let mut i: usize = 0;
        while i < n
            invariant
                n == self@.len(),
                n == other@.len(),
                i <= n,
                forall|j: int| 0 <= j < i ==> self@[j] == other@[j],
            decreases n - i,
        {
            if self.segments[i] != other.segments[i] {
                assert(self@[i as int] != other@[i as int]);
                return false;
            }
            i = i + 1;
        }
        assert(self@ =~= other@);
        true
    }

    pub fn is_strict_prefix_of(&self, other: &SegPath) -> (r: bool)
        ensures
            r == is_strict_prefix(self@, other@),
    {
        if self.segments.len() >= other.segments.len() {
            return false;
        }
        let n = self.segments.len();
        let mut i: usize = 0;
        while i < n
            invariant
                n == self@.len(),
                n < other@.len(),
                i <= n,
                forall|j: int| 0 <= j < i ==> self@[j] == other@.subrange(0, n as int)[j],
            decreases n - i,
        {
            if self.segments[i] != other.segments[i] {
                assert(self@[i as int] != other@.subrange(0, n as int)[i as int]);
                return false;
            }
            i = i + 1;
        }
        assert(self@ =~= other@.subrange(0, n as int));
        true
    }

    /// The components joined by `/`, for display and for glob matching.
    pub fn join_display(&self) -> (r: String)
        ensures
            r@ == joined(self@),
    {
        let mut out = String::new();
        let mut i: usize = 0;
        proof {
            reveal_strlit("/");
            assert(out@ =~= joined(self@.subrange(0, 0)));
        }
        while i < self.segments.len()
            invariant
                i <= self.segments.len(),
                out@ == joined(self@.subrange(0, i as int)),
            decreases self.segments.len() - i,
        {
            proof {
                reveal_strlit("/");
            }
            if i > 0 {
                out.append("/");
            }
            out.append(self.segments[i].as_str());
            proof {
                let sub1 = self@.subrange(0, (i + 1) as int);
                assert(sub1.drop_last() =~= self@.subrange(0, i as int));
                assert(sub1.last() == self@[i as int]);
                if i == 0 {
                    assert(out@ =~= joined(sub1));
                } else {
                    assert(out@ =~= joined(sub1));
                }
            }
            i = i + 1;
        }
        assert(self@.subrange(0, self@.len() as int) =~= self@);
        out
    }
}

/// Membership of a path view in a sequence of paths.
pub open spec fn contains_path(s: Seq<SegPath>, p: Seq<Seq<char>>) -> bool {
    exists|i: int| 0 <= i < s.len() && s[i]@ == p
}

/// Exec membership test over a vector of paths.
pub fn vec_contains_path(v: &Vec<SegPath>, p: &SegPath) -> (r: bool)
    ensures
        r == contains_path(v@, p@),
{
    let mut i: usize = 0;
    while i < v.len()
        invariant
            i <= v@.len(),
            forall|j: int| 0 <= j < i ==> v@[j]@ != p@,
        decreases v@.len() - i,
    {
        if v[i].eq_path(p) {
            assert(v@[i as int]@ == p@);
            return true;
        }
        i = i + 1;
    }
    false
}

} // verus!
