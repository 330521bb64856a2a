//! Glob patterns that file names are matched against, compiled and matched
//! by the `glob` crate.

use vstd::prelude::*;

use crate::text::concat;

verus! {

#[verifier::external_type_specification]
#[verifier::external_body]
pub struct ExGlobPattern(glob::Pattern);

/// What `glob::Pattern::new` says of `pattern`: nothing when it compiles,
/// else the text of its `PatternError` (the position and the reason).
pub uninterp spec fn glob_error(pattern: Seq<char>) -> Option<Seq<char>>;

/// Whether the pattern compiled from `pattern` matches `name` under the
/// default match options (`glob::Pattern::matches`).
pub uninterp spec fn glob_matches(pattern: Seq<char>, name: Seq<char>) -> bool;

/// `glob::Pattern::new`: compiles `source`, or gives the text of the
/// `PatternError` that says why it is not a pattern. Both what is accepted
/// and that text are a function of `source` alone, named `glob_error`.
#[verifier::external_body]
fn compile_glob(source: &str) -> (r: Result<glob::Pattern, String>)
    ensures
        r is Ok <==> glob_error(source@) is None,
        r matches Err(m) ==> glob_error(source@) == Some(m@),
{
    match glob::Pattern::new(source) {
        Ok(p) => Ok(p),
        Err(e) => Err(e.to_string()),
    }
}

/// A file-name pattern together with the text it was compiled from.
pub struct NamePattern {
    source: String,
    compiled: glob::Pattern,
}

impl NamePattern {
    /// The text the pattern was compiled from.
    pub closed spec fn source_text(&self) -> Seq<char> {
        self.source@
    }

    /// Compiles `source`; an invalid pattern gives the message
    /// `Invalid pattern: ` followed by what the glob crate says of it.
    pub fn new(source: &str) -> (r: Result<NamePattern, String>)
        ensures
            r is Ok <==> glob_error(source@) is None,
            r matches Ok(p) ==> p.source_text() == source@,
            r matches Err(m) ==> glob_error(source@) matches Some(e) && m@ == "Invalid pattern: "@ + e,
    {
        match compile_glob(source) {
            Ok(compiled) => Ok(NamePattern { source: source.to_owned(), compiled }),
            Err(e) => Err(concat("Invalid pattern: ", e.as_str())),
        }
    }

    /// Whether `name` matches the pattern.
    pub fn matches(&self, name: &str) -> (r: bool)
        ensures
            r == glob_matches(self.source_text(), name@),
    {
        pattern_matches(self, name)
    }
}

/// `glob::Pattern::matches` on the compiled pattern. A `NamePattern` is only
/// made by `NamePattern::new`, which compiles `source` into `compiled`, so
/// the contract speaks of the source text.
#[verifier::external_body]
fn pattern_matches(p: &NamePattern, name: &str) -> (r: bool)
    ensures
        r == glob_matches(p.source@, name@),
{
    p.compiled.matches(name)
}

} // verus!
