//! The repository record: a local path, the version-control system that
//! controls it, and an optional remote URL.

use vstd::prelude::*;

verus! {

/// The closed set of supported version-control systems.
#[derive(Clone, Copy, PartialEq, Eq, Structural, Debug)]
pub enum VcsKind {
    Git,
    Mercurial,
    Darcs,
    Pijul,
}

impl VcsKind {
    /// The name of the control directory that marks a repository root of
    /// this kind, directly inside the root.
    pub fn marker(&self) -> (r: &'static str)
        ensures
            self is Git ==> r@ == ".git"@,
            self is Mercurial ==> r@ == ".hg"@,
            self is Darcs ==> r@ == "_darcs"@,
            self is Pijul ==> r@ == ".pijul"@,
    {
        match self {
            VcsKind::Git => ".git",
            VcsKind::Mercurial => ".hg",
            VcsKind::Darcs => "_darcs",
            VcsKind::Pijul => ".pijul",
        }
    }

    /// The name of the executable that performs this kind's operations.
    pub fn command(&self) -> (r: &'static str)
        ensures
            self is Git ==> r@ == "git"@,
            self is Mercurial ==> r@ == "hg"@,
            self is Darcs ==> r@ == "darcs"@,
            self is Pijul ==> r@ == "pijul"@,
    {
        match self {
            VcsKind::Git => "git",
            VcsKind::Mercurial => "hg",
            VcsKind::Darcs => "darcs",
            VcsKind::Pijul => "pijul",
        }
    }
}

/// A configured remote: the URL the repository was cloned from or pushes to.
#[derive(Debug)]
pub struct Remote {
    pub url: String,
}

impl Clone for Remote {
    fn clone(&self) -> (r: Self)
        ensures
            r == *self,
    {
        Remote { url: self.url.clone() }
    }
}

impl View for Remote {
    type V = Seq<char>;

    open spec fn view(&self) -> Seq<char> {
        self.url@
    }
}

impl Remote {
    pub fn new(url: String) -> (r: Remote)
        ensures
            r@ == url@,
    {
        Remote { url }
    }

    pub fn url(&self) -> (r: &String)
        ensures
            r@ == self@,
    {
        &self.url
    }
}

/// The mathematical model of one repository record.
pub ghost struct RepoModel {
    pub path: Seq<char>,
    pub vcs: VcsKind,
    pub remote: Option<Seq<char>>,
}

/// One managed local clone.
#[derive(Debug)]
pub struct Repository {
    pub path: String,
    pub vcs: VcsKind,
    pub remote: Option<Remote>,
}

impl Clone for Repository {
    fn clone(&self) -> (r: Self)
        ensures
            r == *self,
    {
        Repository {
            path: self.path.clone(),
            vcs: self.vcs,
            remote: match &self.remote {
                Some(rem) => Some(rem.clone()),
                None => None,
            },
        }
    }
}

impl View for Repository {
    type V = RepoModel;

    open spec fn view(&self) -> RepoModel {
        RepoModel {
            path: self.path@,
            vcs: self.vcs,
            remote: match self.remote {
                Some(rem) => Some(rem@),
                None => None,
            },
        }
    }
}

/// The display name of a path: the characters after the last separator,
/// or the whole path when it has no separator.
pub open spec fn name_of(path: Seq<char>) -> Seq<char>
    decreases path.len(),
{
    if path.len() == 0 {
        Seq::empty()
    } else if path.last() == '/' {
        Seq::empty()
    } else {
        name_of(path.drop_last()).push(path.last())
    }
}

/// Lexicographic order on character sequences by code point, with a proper
/// prefix ordered before its extensions. This is the order `str` comparison
/// uses, since UTF-8 preserves code-point order byte-wise.
pub open spec fn lex_le(a: Seq<char>, b: Seq<char>) -> bool
    decreases a.len(),
{
    if a.len() == 0 {
        true
    } else if b.len() == 0 {
        false
    } else if a[0] == b[0] {
        lex_le(a.drop_first(), b.drop_first())
    } else {
        (a[0] as u32) < (b[0] as u32)
    }
}

pub proof fn lemma_lex_le_total(a: Seq<char>, b: Seq<char>)
    ensures
        lex_le(a, b) || lex_le(b, a),
    decreases a.len(),
{
    if a.len() == 0 || b.len() == 0 {
    } else if a[0] == b[0] {
        lemma_lex_le_total(a.drop_first(), b.drop_first());
    } else {
        // Distinct characters have distinct code points.
        if a[0] as u32 == b[0] as u32 {
            vstd::utf8::char_u32_cast(a[0], a[0] as u32);
            vstd::utf8::char_u32_cast(b[0], b[0] as u32);
            assert(false);
        }
    }
}

pub proof fn lemma_lex_le_reflexive(a: Seq<char>)
    ensures
        lex_le(a, a),
    decreases a.len(),
{
    if a.len() > 0 {
        lemma_lex_le_reflexive(a.drop_first());
    }
}

pub proof fn lemma_lex_le_transitive(a: Seq<char>, b: Seq<char>, c: Seq<char>)
    requires
        lex_le(a, b),
        lex_le(b, c),
    ensures
        lex_le(a, c),
    decreases a.len(),
{
    if a.len() == 0 {
    } else {
        assert(b.len() > 0);
        assert(c.len() > 0);
        if a[0] == b[0] && b[0] == c[0] {
            lemma_lex_le_transitive(a.drop_first(), b.drop_first(), c.drop_first());
        }
    }
}

/// Compares two strings in the order of `lex_le`, one character at a time
/// from position `i`, the shared prefix before `i` already known equal.
fn lex_le_from(a: &str, b: &str, i: usize) -> (r: bool)
    requires
        i <= a@.len(),
        i <= b@.len(),
    ensures
        r == lex_le(a@.skip(i as int), b@.skip(i as int)),
    decreases a@.len() - i,
{
    let a_len = a.unicode_len();
    let b_len = b.unicode_len();
    if i == a_len {
        true
    } else if i == b_len {
        proof {
            assert(a@.skip(i as int).len() > 0);
        }
        false
    } else {
        let ca = a.get_char(i);
        let cb = b.get_char(i);
        proof {
            assert(a@.skip(i as int)[0] == a@[i as int]);
            assert(b@.skip(i as int)[0] == b@[i as int]);
            assert(a@.skip(i as int).drop_first() =~= a@.skip(i as int + 1));
            assert(b@.skip(i as int).drop_first() =~= b@.skip(i as int + 1));
        }
        if ca == cb {
            lex_le_from(a, b, i + 1)
        } else {
            (ca as u32) < (cb as u32)
        }
    }
}

/// True when `a` is ordered at or before `b` lexicographically.
pub fn str_le(a: &str, b: &str) -> (r: bool)
    ensures
        r == lex_le(a@, b@),
{
    proof {
        assert(a@.skip(0) =~= a@);
        assert(b@.skip(0) =~= b@);
    }
    lex_le_from(a, b, 0)
}

/// True when the two strings hold the same characters.
pub fn str_eq(a: &str, b: &str) -> (r: bool)
    ensures
        r == (a@ == b@),
{
    let a_len = a.unicode_len();
    let b_len = b.unicode_len();
    if a_len != b_len {
        return false;
    }
    let mut i: usize = 0;
    while i < a_len
        invariant
            i <= a_len,
            a_len == a@.len(),
            b_len == b@.len(),
            a_len == b_len,
            forall|k: int| 0 <= k < i ==> a@[k] == b@[k],
        decreases a_len - i,
    {
        if a.get_char(i) != b.get_char(i) {
            return false;
        }
        i += 1;
    }
    proof {
        assert(a@ =~= b@);
    }
    true
}

impl Repository {
    /// Builds the record for a confirmed repository. The path is expected
    /// to be absolute and canonical; callers canonicalize before this.
    pub fn new(path: String, vcs: VcsKind, remote: Option<Remote>) -> (r: Repository)
        ensures
            r@.path == path@,
            r@.vcs == vcs,
            r@.remote == match remote {
                Some(rem) => Some(rem@),
                None => None::<Seq<char>>,
            },
    {
        Repository { path, vcs, remote }
    }

    pub fn path_string(&self) -> (r: String)
        ensures
            r@ == self@.path,
    {
        self.path.clone()
    }

    pub fn path(&self) -> (r: &String)
        ensures
            r@ == self@.path,
    {
        &self.path
    }

    pub fn vcs(&self) -> (r: VcsKind)
        ensures
            r == self@.vcs,
    {
        self.vcs
    }

    pub fn remote(&self) -> (r: &Option<Remote>)
        ensures
            match r {
                Some(rem) => self@.remote == Some(rem@),
                None => self@.remote is None,
            },
    {
        &self.remote
    }

    /// Two records are the same local repository when their paths are equal.
    pub fn is_same_local(&self, other: &Repository) -> (r: bool)
        ensures
            r == (self@.path == other@.path),
    {
        str_eq(self.path.as_str(), other.path.as_str())
    }

    /// The display name: the final segment of the path.
    pub fn name(&self) -> (r: String)
        ensures
            r@ == name_of(self@.path),
    {
        last_segment(&self.path)
    }
}

/// The index right after the last separator of `path`, or 0 when it has none.
spec fn tail_start(path: Seq<char>) -> int
    decreases path.len(),
{
    if path.len() == 0 {
        0
    } else if path.last() == '/' {
        path.len() as int
    } else {
        tail_start(path.drop_last())
    }
}

proof fn lemma_name_of_is_tail(path: Seq<char>)
    ensures
        0 <= tail_start(path) <= path.len(),
        name_of(path) =~= path.skip(tail_start(path)),
        forall|k: int|
            tail_start(path) <= k < path.len() ==> path[k] != '/',
        tail_start(path) > 0 ==> path[tail_start(path) - 1] == '/',
    decreases path.len(),
{
    if path.len() == 0 {
    } else if path.last() == '/' {
    } else {
        lemma_name_of_is_tail(path.drop_last());
        assert(name_of(path) == name_of(path.drop_last()).push(path.last()));
        assert(tail_start(path) == tail_start(path.drop_last()));
        assert(path.drop_last().skip(tail_start(path)).push(path.last()) =~= path.skip(
            tail_start(path),
        ));
        let t = tail_start(path);
        assert forall|k: int| t <= k < path.len() implies path[k] != '/' by {
            if k < path.len() - 1 {
                assert(path.drop_last()[k] != '/');
            }
        }
        if t > 0 {
            assert(path.drop_last()[t - 1] == '/');
        }
    }
}

/// Returns the characters after the last `/`, or the whole string when it
/// has none.
fn last_segment(path: &String) -> (r: String)
    ensures
        r@ == name_of(path@),
{
    let s = path.as_str();
    let len = s.unicode_len();
    let mut start: usize = len;
    // Scan backwards for the last separator.
    while start > 0 && s.get_char(start - 1) != '/'
        invariant
            start <= len,
            len == s@.len(),
            forall|k: int| start <= k < len ==> s@[k] != '/',
        decreases start,
    {
        start -= 1;
    }
    proof {
        lemma_name_of_is_tail(path@);
        // Both `start` and `tail_start` point right after the last separator.
        if start < tail_start(path@) {
            assert(s@[tail_start(path@) - 1] == '/');
            assert(false);
        }
        if tail_start(path@) < start {
            assert(s@[start - 1] != '/');
            assert(false);
        }
        assert(start == tail_start(path@));
    }
    let tail = s.substring_char(start, len);
    proof {
        assert(tail@ =~= path@.skip(start as int));
    }
    String::from_str(tail)
}

} // verus!
