//! Exclusion patterns: a set of shell-style globs compiled once from
//! configuration strings; a path is excluded when any pattern matches it.
//! Compilation and matching are the glob crate's.

use vstd::prelude::*;

use crate::Error;

verus! {

#[verifier::external_type_specification]
#[verifier::external_body]
pub struct ExPattern(glob::Pattern);

/// Whether `glob::Pattern::new` accepts a pattern text; a function of the
/// text alone.
pub uninterp spec fn glob_ok(pattern: Seq<char>) -> bool;

/// The compiled form of an accepted pattern text. `glob::Pattern::new` is
/// a pure parser, so the value is a function of the text alone (within one
/// build: its grammar consults the platform's path-separator set).
pub uninterp spec fn compiled_of(pattern: Seq<char>) -> glob::Pattern;

/// What `glob::Pattern::matches` returns for a compiled pattern and a path;
/// a function of the pattern value and the path alone (within one build:
/// matching consults the platform's path-separator set).
pub uninterp spec fn pattern_match(p: glob::Pattern, path: Seq<char>) -> bool;

/// Relies on glob::Pattern::new: compiles a shell-style pattern, and fails
/// exactly on the texts the glob grammar refuses.
#[verifier::external_body]
fn compile_pattern(s: &str) -> (r: Option<glob::Pattern>)
    ensures
        (r is Some) == glob_ok(s@),
        r matches Some(p) ==> p == compiled_of(s@),
{
    glob::Pattern::new(s).ok()
}

/// Relies on glob::Pattern::matches: tests the path against the compiled
/// pattern; the result depends on the pattern value and the path alone.
#[verifier::external_body]
fn match_pattern(p: &glob::Pattern, path: &str) -> (r: bool)
    ensures
        r == pattern_match(*p, path@),
{
    p.matches(path)
}

/// True when any of the patterns matches the path.
pub open spec fn excluded(pats: Seq<glob::Pattern>, path: Seq<char>) -> bool {
    exists|i: int| 0 <= i < pats.len() && pattern_match(pats[i], path)
}

/// The compiled exclusion patterns of one configuration.
pub struct ExcludeMatcher {
    pub patterns: Vec<glob::Pattern>,
}

impl View for ExcludeMatcher {
    type V = Seq<glob::Pattern>;

    open spec fn view(&self) -> Seq<glob::Pattern> {
        self.patterns@
    }
}

impl ExcludeMatcher {
    /// Compiles every pattern text, in order; an invalid text is a
    /// configuration error, reported at load time.
    pub fn new(patterns: &Vec<String>) -> (r: Result<ExcludeMatcher, Error>)
        ensures
            match r {
                Ok(m) => {
                    &&& m@.len() == patterns@.len()
                    &&& forall|i: int|
                        0 <= i < patterns@.len() ==> glob_ok(#[trigger] patterns@[i]@)
                    &&& forall|i: int|
                        0 <= i < patterns@.len() ==> m@[i] == compiled_of(
                            #[trigger] patterns@[i]@,
                        )
                },
                Err(e) => e == Error::ConfigError && exists|i: int|
                    0 <= i < patterns@.len() && !glob_ok(#[trigger] patterns@[i]@),
            },
    {
        let mut compiled: Vec<glob::Pattern> = Vec::new();
        let n = patterns.len();
        let mut i: usize = 0;
        while i < n
            invariant
                i <= n,
                n == patterns@.len(),
                compiled@.len() == i,
                forall|k: int| 0 <= k < i ==> glob_ok(#[trigger] patterns@[k]@),
                forall|k: int|
                    0 <= k < i ==> compiled@[k] == compiled_of(#[trigger] patterns@[k]@),
            decreases n - i,
        {
            match compile_pattern(patterns[i].as_str()) {
                Some(p) => compiled.push(p),
                None => {
                    return Err(Error::ConfigError);
                },
            }
            i += 1;
        }
        Ok(ExcludeMatcher { patterns: compiled })
    }

    /// An empty pattern set, which excludes nothing.
    pub fn none() -> (r: ExcludeMatcher)
        ensures
            r@.len() == 0,
    {
        ExcludeMatcher { patterns: Vec::new() }
    }

    /// True when any pattern matches the path text.
    pub fn matches(&self, path: &str) -> (r: bool)
        ensures
            r == excluded(self@, path@),
    {
        let n = self.patterns.len();
        let mut i: usize = 0;
        while i < n
            invariant
                i <= n,
                n == self@.len(),
                forall|k: int| 0 <= k < i ==> !pattern_match(self@[k], path@),
            decreases n - i,
        {
            if match_pattern(&self.patterns[i], path) {
                return true;
            }
            i += 1;
        }
        false
    }
}

} // verus!
