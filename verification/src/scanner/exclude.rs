//! Exclude patterns, compiled with the `globset` crate.
//!
//! Matching a path against a set of globs is `globset`'s work; the library
//! names its outcomes and states what the crate's source shows of them.

use vstd::prelude::*;
use globset::{Glob, GlobSet, GlobSetBuilder};

verus! {

#[verifier::external_type_specification]
#[verifier::external_body]
pub struct ExGlobSet(GlobSet);

#[verifier::external_type_specification]
#[verifier::external_body]
pub struct ExGlobSetBuilder(GlobSetBuilder);

#[verifier::external_type_specification]
#[verifier::external_body]
pub struct ExGlobError(globset::Error);

/// Whether `Glob::new` accepts the pattern text.
pub uninterp spec fn glob_parses(pattern: Seq<char>) -> bool;

/// Whether `globset` compiles the globs with these pattern texts, in this
/// order, into one set.
pub uninterp spec fn glob_set_builds(patterns: Seq<Seq<char>>) -> bool;

/// Whether a set compiled from these pattern texts matches the path.
pub uninterp spec fn glob_set_matches(patterns: Seq<Seq<char>>, path: Seq<char>) -> bool;

/// The pattern texts of the globs added to a builder, in order.
pub uninterp spec fn builder_patterns(b: GlobSetBuilder) -> Seq<Seq<char>>;

/// The pattern texts of the globs a set was compiled from, in order.
pub uninterp spec fn set_patterns(s: GlobSet) -> Seq<Seq<char>>;

/// `GlobSetBuilder::new`: a builder that holds no glob yet.
#[verifier::external_body]
pub(crate) fn new_builder() -> (b: GlobSetBuilder)
    ensures
        builder_patterns(b) == Seq::<Seq<char>>::empty(),
{
    GlobSetBuilder::new()
}

/// `Glob::new` on the pattern text, then `GlobSetBuilder::add` of the glob it
/// gives. The parse fails exactly when the name says so; a parsed glob is
/// added at the end of the builder (`add` pushes it on the builder's list),
/// and the builder is left as it was when the parse fails.
#[verifier::external_body]
pub(crate) fn add_pattern(b: &mut GlobSetBuilder, pattern: &str) -> (r: Result<(), globset::Error>)
    ensures
        r is Ok == glob_parses(pattern@),
        r is Ok ==> builder_patterns(*final(b)) == builder_patterns(*old(b)).push(pattern@),
        r is Err ==> builder_patterns(*final(b)) == builder_patterns(*old(b)),
{
    let glob = Glob::new(pattern)?;
    b.add(glob);
    Ok(())
}

/// `GlobSetBuilder::build`: compiles the globs added so far. With none, the
/// source returns the empty set without compiling anything.
#[verifier::external_body]
pub(crate) fn build_set(b: &GlobSetBuilder) -> (r: Result<GlobSet, globset::Error>)
    ensures
        r is Ok == glob_set_builds(builder_patterns(*b)),
        builder_patterns(*b).len() == 0 ==> r is Ok,
        r matches Ok(s) ==> set_patterns(s) == builder_patterns(*b),
{
    b.build()
}

/// `GlobSet::is_empty`: whether the set was compiled from no glob (the set
/// counts one per glob it was given).
#[verifier::external_body]
pub(crate) fn set_is_empty(s: &GlobSet) -> (e: bool)
    ensures
        e == (set_patterns(*s).len() == 0),
{
    s.is_empty()
}

/// `GlobSet::is_match` on the path text. An empty set matches nothing.
#[verifier::external_body]
pub(crate) fn set_is_match(s: &GlobSet, path: &str) -> (m: bool)
    ensures
        m == glob_set_matches(set_patterns(*s), path@),
        set_patterns(*s).len() == 0 ==> !m,
{
    s.is_match(path)
}

/// The text `globset::Error` displays. Nothing is stated of it: it is the
/// crate's own wording.
#[verifier::external_body]
pub(crate) fn glob_error_text(e: &globset::Error) -> (t: String) {
    e.to_string()
}

} // verus!
