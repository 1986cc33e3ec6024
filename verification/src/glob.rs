use vstd::prelude::*;

verus! {

// The glob engine is outside code: compiling a pattern and matching a path
// against a compiled set are taken on trust from the `globset` crate, and
// everything the library proves about rule evaluation goes through the
// names below.
#[verifier::external_type_specification]
#[verifier::external_body]
pub struct ExGlob(globset::Glob);

#[verifier::external_type_specification]
#[verifier::external_body]
pub struct ExGlobSet(globset::GlobSet);

#[verifier::external_type_specification]
#[verifier::external_body]
pub struct ExGlobSetBuilder(globset::GlobSetBuilder);

#[verifier::external_type_specification]
#[verifier::external_body]
pub struct ExGlobError(globset::Error);

/// The source pattern a compiled glob holds.
pub uninterp spec fn glob_pattern_of(g: globset::Glob) -> Seq<char>;

/// The source patterns a builder has accumulated, in insertion order.
pub uninterp spec fn glob_builder_contents(b: globset::GlobSetBuilder) -> Seq<Seq<char>>;

/// The source patterns a compiled set was built from, in insertion order.
pub uninterp spec fn glob_set_contents(s: globset::GlobSet) -> Seq<Seq<char>>;

/// Whether a set of glob patterns matches a path text. The result of
/// `globset::GlobSet::is_match`, which depends on the set's patterns and
/// the path alone.
pub uninterp spec fn glob_set_match(patterns: Seq<Seq<char>>, path: Seq<char>) -> bool;

/// Relies on `globset::Glob::new`: a compiled glob records exactly the
/// pattern text it was compiled from (its `glob` field).
#[verifier::external_body]
pub fn glob_new(pattern: &str) -> (r: Result<globset::Glob, globset::Error>)
    ensures
        r matches Ok(g) ==> glob_pattern_of(g) == pattern@,
{
    globset::Glob::new(pattern)
}

/// Relies on `globset::GlobSetBuilder::new`: a fresh builder holds no
/// patterns.
#[verifier::external_body]
pub fn glob_builder_new() -> (r: globset::GlobSetBuilder)
    ensures
        glob_builder_contents(r) == Seq::<Seq<char>>::empty(),
{
    globset::GlobSetBuilder::new()
}

/// Relies on `globset::GlobSetBuilder::add`: it appends the glob to the
/// builder's pattern list.
#[verifier::external_body]
pub fn glob_builder_add(b: &mut globset::GlobSetBuilder, g: globset::Glob)
    ensures
        glob_builder_contents(*final(b)) == glob_builder_contents(*old(b)).push(
            glob_pattern_of(g),
        ),
{
    b.add(g);
}

/// Relies on `globset::GlobSetBuilder::build`: on success the compiled set
/// consists of exactly the patterns added so far.
#[verifier::external_body]
pub fn glob_builder_build(b: &globset::GlobSetBuilder) -> (r: Result<
    globset::GlobSet,
    globset::Error,
>)
    ensures
        r matches Ok(s) ==> glob_set_contents(s) == glob_builder_contents(*b),
{
    b.build()
}

/// Relies on `globset::GlobSet::is_match`: a deterministic function of the
/// set's patterns and the path text.
#[verifier::external_body]
pub fn glob_set_is_match(s: &globset::GlobSet, path: &str) -> (r: bool)
    ensures
        r == glob_set_match(glob_set_contents(*s), path@),
{
    s.is_match(path)
}

/// Relies on `globset::GlobSet`'s derived `Clone`: the copy holds the same
/// patterns.
#[verifier::external_body]
pub fn glob_set_clone(s: &globset::GlobSet) -> (r: globset::GlobSet)
    ensures
        glob_set_contents(r) == glob_set_contents(*s),
{
    s.clone()
}

/// Relies on `globset::Error`'s `Display` impl for a readable message.
#[verifier::external_body]
pub fn glob_error_message(e: &globset::Error) -> (r: String) {
    e.to_string()
}

/// A compiled glob set together with the pattern texts it was built from,
/// so that contracts can speak of the patterns as plain values.
pub struct GlobSetMatcher {
    patterns: Vec<String>,
    set: globset::GlobSet,
}

impl GlobSetMatcher {
    /// The compiled set holds exactly the recorded patterns.
    pub closed spec fn wf(&self) -> bool {
        glob_set_contents(self.set) == self.patterns.deep_view()
    }

    pub closed spec fn patterns_view(&self) -> Seq<Seq<char>> {
        self.patterns.deep_view()
    }

    /// Compiles every pattern; fails with the engine's message on the
    /// first pattern the engine refuses.
    pub fn new(patterns: Vec<String>) -> (r: Result<GlobSetMatcher, String>)
        ensures
            r matches Ok(m) ==> m.wf() && m.patterns_view() == patterns.deep_view(),
    {
        let mut builder = glob_builder_new();
        let mut i: usize = 0;
        while i < patterns.len()
            invariant
                i <= patterns.len(),
                glob_builder_contents(builder) =~= patterns.deep_view().subrange(0, i as int),
            decreases patterns.len() - i,
        {
            let g = match glob_new(patterns[i].as_str()) {
                Ok(g) => g,
                Err(e) => {
                    return Err(glob_error_message(&e));
                },
            };
            glob_builder_add(&mut builder, g);
            assert(glob_builder_contents(builder) =~= patterns.deep_view().subrange(
                0,
                (i + 1) as int,
            ));
            i = i + 1;
        }
        assert(patterns.deep_view().subrange(0, patterns.deep_view().len() as int)
            =~= patterns.deep_view());
        match glob_builder_build(&builder) {
            Ok(set) => Ok(GlobSetMatcher { patterns, set }),
            Err(e) => Err(glob_error_message(&e)),
        }
    }

    pub fn is_match(&self, path: &str) -> (r: bool)
        requires
            self.wf(),
        ensures
            r == glob_set_match(self.patterns_view(), path@),
    {
        glob_set_is_match(&self.set, path)
    }

    pub fn duplicate(&self) -> (r: GlobSetMatcher)
        requires
            self.wf(),
        ensures
            r.wf() && r.patterns_view() == self.patterns_view(),
    {
        let mut patterns: Vec<String> = Vec::new();
        let mut i: usize = 0;
        while i < self.patterns.len()
            invariant
                i <= self.patterns.len(),
                patterns.deep_view() =~= self.patterns.deep_view().subrange(0, i as int),
            decreases self.patterns.len() - i,
        {
            let ghost prev = patterns.deep_view();
            patterns.push(self.patterns[i].clone());
            proof {
                assert(patterns.deep_view() =~= prev.push(self.patterns@[i as int]@));
                assert(patterns.deep_view() =~= self.patterns.deep_view().subrange(
                    0,
                    (i + 1) as int,
                ));
            }
            i = i + 1;
        }
        assert(patterns.deep_view() =~= self.patterns.deep_view());
        GlobSetMatcher { patterns, set: glob_set_clone(&self.set) }
    }
}

} // verus!
