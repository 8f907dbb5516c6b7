//! Short repository identifiers: `user/repo`, `host.tld/user/repo`, or a
//! full URL with a scheme. A parsed query resolves to an on-disk path under
//! a root directory and to an HTTPS or SSH remote URL.

use vstd::prelude::*;

use crate::Error;

verus! {

/// The mathematical model of a parsed query.
pub ghost struct QueryModel {
    pub host: Option<Seq<char>>,
    pub path: Seq<char>,
}

/// A parsed short identifier: an optional host and a `/`-separated path.
pub struct Query {
    pub host: Option<String>,
    pub path: String,
}

impl View for Query {
    type V = QueryModel;

    open spec fn view(&self) -> QueryModel {
        QueryModel {
            host: match self.host {
                Some(h) => Some(h@),
                None => None,
            },
            path: self.path@,
        }
    }
}

/// The first index holding `c`, if any.
pub open spec fn find_char(s: Seq<char>, c: char) -> Option<int>
    decreases s.len(),
{
    if s.len() == 0 {
        None
    } else if s[0] == c {
        Some(0)
    } else {
        match find_char(s.drop_first(), c) {
            None => None,
            Some(i) => Some(i + 1),
        }
    }
}

pub proof fn lemma_find_char(s: Seq<char>, c: char)
    ensures
        match find_char(s, c) {
            None => forall|i: int| 0 <= i < s.len() ==> s[i] != c,
            Some(i) => 0 <= i < s.len() && s[i] == c && forall|j: int| 0 <= j < i ==> s[j] != c,
        },
    decreases s.len(),
{
    if s.len() == 0 {
    } else if s[0] == c {
    } else {
        lemma_find_char(s.drop_first(), c);
        match find_char(s.drop_first(), c) {
            None => {
                assert forall|i: int| 0 <= i < s.len() implies s[i] != c by {
                    if i > 0 {
                        assert(s.drop_first()[i - 1] != c);
                    }
                }
            },
            Some(i) => {
                assert(s.drop_first()[i] == s[i + 1]);
                assert forall|j: int| 0 <= j < i + 1 implies s[j] != c by {
                    if j > 0 {
                        assert(s.drop_first()[j - 1] != c);
                    }
                }
            },
        }
    }
}

/// A non-empty run of `/`-separated, non-empty segments: no leading,
/// trailing or doubled separator.
pub open spec fn segments_ok(s: Seq<char>) -> bool {
    &&& s.len() > 0
    &&& s[0] != '/'
    &&& s[s.len() - 1] != '/'
    &&& forall|i: int| 0 <= i < s.len() - 1 ==> !(#[trigger] s[i] == '/' && s[i + 1] == '/')
}

/// The query grammar. A text with a `:` must be a full URL
/// `scheme://host/path`; otherwise the text is `/`-separated segments, and
/// a first segment holding a `.` names the host.
pub open spec fn parse_spec(s: Seq<char>) -> Option<QueryModel> {
    match find_char(s, ':') {
        Some(i) => if i >= 1 && i + 3 <= s.len() && s[i + 1] == '/' && s[i + 2] == '/' {
            let rest = s.subrange(i + 3, s.len() as int);
            match find_char(rest, '/') {
                Some(j) => {
                    let host = rest.subrange(0, j);
                    let path = rest.subrange(j + 1, rest.len() as int);
                    if j >= 1 && segments_ok(path) {
                        Some(QueryModel { host: Some(host), path })
                    } else {
                        None
                    }
                },
                None => None,
            }
        } else {
            None
        },
        None => if segments_ok(s) {
            match find_char(s, '/') {
                Some(j) => if find_char(s.subrange(0, j), '.') is Some {
                    Some(
                        QueryModel {
                            host: Some(s.subrange(0, j)),
                            path: s.subrange(j + 1, s.len() as int),
                        },
                    )
                } else {
                    Some(QueryModel { host: None, path: s })
                },
                None => Some(QueryModel { host: None, path: s }),
            }
        } else {
            None
        },
    }
}

/// The host a query names, or the default host when it names none.
pub open spec fn host_or_default(q: QueryModel) -> Seq<char> {
    match q.host {
        Some(h) => h,
        None => "github.com"@,
    }
}

/// The HTTPS or SSH form of the remote URL.
pub open spec fn to_url_spec(q: QueryModel, ssh: bool) -> Seq<char> {
    if ssh {
        "git@"@ + host_or_default(q) + ":"@ + q.path
    } else {
        "https://"@ + host_or_default(q) + "/"@ + q.path
    }
}

/// The on-disk destination: the root, the host, and the path, joined.
pub open spec fn resolve_spec(root: Seq<char>, q: QueryModel) -> Seq<char> {
    root + "/"@ + host_or_default(q) + "/"@ + q.path
}

/// The first index holding `c`, by linear scan.
fn find_char_exec(s: &str, c: char) -> (r: Option<usize>)
    ensures
        match r {
            None => find_char(s@, c) is None,
            Some(u) => find_char(s@, c) == Some(u as int),
        },
{
    proof {
        lemma_find_char(s@, c);
    }
    let n = s.unicode_len();
    let mut i: usize = 0;
    while i < n
        invariant
            i <= n,
            n == s@.len(),
            forall|k: int| 0 <= k < i ==> s@[k] != c,
        decreases n - i,
    {
        if s.get_char(i) == c {
            proof {
                lemma_find_char(s@, c);
                match find_char(s@, c) {
                    Some(fi) => {
                        if fi < i {
                            assert(s@[fi] != c);
                        }
                        if i < fi {
                            assert(s@[i as int] != c);
                        }
                    },
                    None => {
                        assert(s@[i as int] != c);
                    },
                }
            }
            return Some(i);
        }
        i += 1;
    }
    proof {
        match find_char(s@, c) {
            Some(fi) => {
                assert(s@[fi] != c);
            },
            None => {},
        }
    }
    None
}

/// Checks the segment shape of `s`.
fn segments_ok_exec(s: &str) -> (r: bool)
    ensures
        r == segments_ok(s@),
{
    let n = s.unicode_len();
    if n == 0 {
        return false;
    }
    if s.get_char(0) == '/' {
        return false;
    }
    if s.get_char(n - 1) == '/' {
        return false;
    }
    let mut i: usize = 0;
    while i + 1 < n
        invariant
            i < n,
            n == s@.len(),
            forall|k: int| 0 <= k < i ==> !(#[trigger] s@[k] == '/' && s@[k + 1] == '/'),
        decreases n - i,
    {
        if s.get_char(i) == '/' && s.get_char(i + 1) == '/' {
            return false;
        }
        i += 1;
    }
    true
}

impl Query {
    /// Parses a query text. Returns the parse of the grammar above, and
    /// `ParseError` exactly on the texts the grammar refuses.
    pub fn parse(text: &str) -> (r: Result<Query, Error>)
        ensures
            match r {
                Ok(q) => parse_spec(text@) == Some(q@),
                Err(e) => parse_spec(text@) is None && e == Error::ParseError,
            },
    {
        let n = text.unicode_len();
        match find_char_exec(text, ':') {
            Some(i) => {
                proof {
                    lemma_find_char(text@, ':');
                }
                if i >= 1 && n >= 3 && i <= n - 3 && text.get_char(i + 1) == '/' && text.get_char(
                    i + 2,
                ) == '/' {
                    let rest = text.substring_char(i + 3, n);
                    proof {
                        assert(rest@ =~= text@.subrange(i + 3, n as int));
                    }
                    let rest_n = rest.unicode_len();
                    match find_char_exec(rest, '/') {
                        Some(j) => {
                            proof {
                                lemma_find_char(rest@, '/');
                            }
                            let host = rest.substring_char(0, j);
                            let path = rest.substring_char(j + 1, rest_n);
                            if j >= 1 && segments_ok_exec(path) {
                                Ok(
                                    Query {
                                        host: Some(String::from_str(host)),
                                        path: String::from_str(path),
                                    },
                                )
                            } else {
                                Err(Error::ParseError)
                            }
                        },
                        None => Err(Error::ParseError),
                    }
                } else {
                    Err(Error::ParseError)
                }
            },
            None => {
                if !segments_ok_exec(text) {
                    return Err(Error::ParseError);
                }
                match find_char_exec(text, '/') {
                    Some(j) => {
                        proof {
                            lemma_find_char(text@, '/');
                        }
                        let first = text.substring_char(0, j);
                        proof {
                            assert(first@ =~= text@.subrange(0, j as int));
                        }
                        if find_char_exec(first, '.').is_some() {
                            let path = text.substring_char(j + 1, n);
                            Ok(
                                Query {
                                    host: Some(String::from_str(first)),
                                    path: String::from_str(path),
                                },
                            )
                        } else {
                            Ok(Query { host: None, path: String::from_str(text) })
                        }
                    },
                    None => Ok(Query { host: None, path: String::from_str(text) }),
                }
            },
        }
    }

    pub fn host(&self) -> (r: &Option<String>)
        ensures
            match r {
                Some(h) => self@.host == Some(h@),
                None => self@.host is None,
            },
    {
        &self.host
    }

    pub fn path(&self) -> (r: &String)
        ensures
            r@ == self@.path,
    {
        &self.path
    }

    /// The remote URL in HTTPS form, or in SSH form when `ssh` is set.
    pub fn to_url(&self, ssh: bool) -> (r: String)
        ensures
            r@ == to_url_spec(self@, ssh),
    {
        let mut out = String::new();
        if ssh {
            out.append("git@");
        } else {
            out.append("https://");
        }
        match &self.host {
            Some(h) => out.append(h.as_str()),
            None => out.append("github.com"),
        }
        if ssh {
            out.append(":");
        } else {
            out.append("/");
        }
        out.append(self.path.as_str());
        proof {
            assert(out@ =~= to_url_spec(self@, ssh));
        }
        out
    }

    /// The destination path for this query under `root`.
    pub fn resolve(&self, root: &str) -> (r: String)
        ensures
            r@ == resolve_spec(root@, self@),
    {
        let mut out = String::new();
        out.append(root);
        out.append("/");
        match &self.host {
            Some(h) => out.append(h.as_str()),
            None => out.append("github.com"),
        }
        out.append("/");
        out.append(self.path.as_str());
        proof {
            assert(out@ =~= resolve_spec(root@, self@));
        }
        out
    }
}

} // verus!
