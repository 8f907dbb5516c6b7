//! Selects repository roots out of a snapshot of a directory traversal.
//!
//! The caller walks a root directory (following links, bounded by a depth
//! limit when one is set) and hands in one entry per visited directory:
//! its path, the index of its parent entry, its canonicalized path when
//! canonicalization succeeded, and whether a version-control marker was
//! found directly inside it. Selection applies the pruning rules: nothing
//! is descended past a detected repository root, and a directory whose
//! normalized canonical path matches an exclusion pattern is pruned, the
//! scan root itself excepted.

use vstd::prelude::*;

use crate::matcher::{excluded, ExcludeMatcher};

verus! {

/// The mathematical model of one traversal entry.
pub ghost struct EntryModel {
    pub path: Seq<char>,
    pub parent: Option<int>,
    pub canon: Option<Seq<char>>,
    pub is_repo: bool,
}

/// One visited directory. `parent` is the index of the parent entry in the
/// snapshot, and is absent exactly for a scan root. `canon` is the
/// canonicalized path, absent when canonicalization failed. `is_repo` says
/// whether a version-control marker sits directly inside the directory.
pub struct ScanEntry {
    pub path: String,
    pub parent: Option<usize>,
    pub canon: Option<String>,
    pub is_repo: bool,
}

impl View for ScanEntry {
    type V = EntryModel;

    open spec fn view(&self) -> EntryModel {
        EntryModel {
            path: self.path@,
            parent: match self.parent {
                Some(p) => Some(p as int),
                None => None,
            },
            canon: match self.canon {
                Some(c) => Some(c@),
                None => None,
            },
            is_repo: self.is_repo,
        }
    }
}

/// The models of a snapshot.
pub open spec fn entry_models(s: Seq<ScanEntry>) -> Seq<EntryModel> {
    s.map_values(|e: ScanEntry| e@)
}

/// Every entry's parent stands earlier in the snapshot, as a traversal
/// yields it.
pub open spec fn wf_entries(m: Seq<EntryModel>) -> bool {
    forall|i: int|
        0 <= i < m.len() ==> match (#[trigger] m[i]).parent {
            Some(p) => 0 <= p < i,
            None => true,
        }
}

/// A canonical path with its verbatim prefix removed, so patterns written
/// in portable form still match.
pub open spec fn norm_spec(s: Seq<char>) -> Seq<char> {
    if s.len() >= 4 && s[0] == '\\' && s[1] == '\\' && s[2] == '?' && s[3] == '\\' {
        s.skip(4)
    } else {
        s
    }
}

/// A non-root entry passes the exclusion rule when its canonical path is
/// known and, normalized, matches no exclusion pattern.
pub open spec fn admitted(e: EntryModel, pats: Seq<glob::Pattern>) -> bool {
    match e.canon {
        Some(c) => !excluded(pats, norm_spec(c)),
        None => false,
    }
}

/// Whether the traversal reaches this entry: a root always; any other
/// entry only through a surviving parent that is not itself a repository
/// root, and only past the exclusion rule.
pub open spec fn survive(m: Seq<EntryModel>, pats: Seq<glob::Pattern>, i: int) -> bool
    decreases i,
{
    match m[i].parent {
        None => true,
        Some(p) => if 0 <= p < i {
            survive(m, pats, p) && !m[p].is_repo && admitted(m[i], pats)
        } else {
            false
        },
    }
}

/// Whether the scan reports this entry: it is reached and is a repository
/// root.
pub open spec fn selected(m: Seq<EntryModel>, pats: Seq<glob::Pattern>, i: int) -> bool {
    0 <= i < m.len() && survive(m, pats, i) && m[i].is_repo
}

/// The paths of the selected entries among the first `n`, in snapshot
/// order.
pub open spec fn collect_spec(m: Seq<EntryModel>, pats: Seq<glob::Pattern>, n: int) -> Seq<
    Seq<char>,
>
    decreases n,
{
    if n <= 0 {
        Seq::empty()
    } else {
        collect_spec(m, pats, n - 1) + if selected(m, pats, n - 1) {
            seq![m[n - 1].path]
        } else {
            Seq::empty()
        }
    }
}

/// The views of the returned path strings.
pub open spec fn path_views(s: Seq<String>) -> Seq<Seq<char>> {
    s.map_values(|p: String| p@)
}

/// No result is nested directly inside another result: a selected entry's
/// parent is never itself selected.
pub proof fn lemma_no_nested_results(
    m: Seq<EntryModel>,
    pats: Seq<glob::Pattern>,
    i: int,
    p: int,
)
    requires
        wf_entries(m),
        0 <= i < m.len(),
        m[i].parent == Some(p),
        selected(m, pats, i),
    ensures
        !selected(m, pats, p),
{
}

/// No result other than a scan root matches an exclusion pattern: a
/// selected entry with a parent has a known canonical path whose normalized
/// form no pattern matches.
pub proof fn lemma_results_not_excluded(m: Seq<EntryModel>, pats: Seq<glob::Pattern>, i: int)
    requires
        wf_entries(m),
        0 <= i < m.len(),
        m[i].parent is Some,
        selected(m, pats, i),
    ensures
        m[i].canon is Some,
        !excluded(pats, norm_spec(m[i].canon.unwrap())),
{
}

/// Strips the verbatim prefix off a canonical path text.
fn normalize(s: &String) -> (r: String)
    ensures
        r@ == norm_spec(s@),
{
    let st = s.as_str();
    let n = st.unicode_len();
    if n >= 4 && st.get_char(0) == '\\' && st.get_char(1) == '\\' && st.get_char(2) == '?'
        && st.get_char(3) == '\\' {
        let tail = st.substring_char(4, n);
        proof {
            assert(tail@ =~= s@.skip(4));
        }
        String::from_str(tail)
    } else {
        s.clone()
    }
}

/// Walks the snapshot in order and returns the paths of the repository
/// roots the traversal rules keep.
pub fn collect_repositories(entries: &Vec<ScanEntry>, excludes: &ExcludeMatcher) -> (r: Vec<
    String,
>)
    requires
        wf_entries(entry_models(entries@)),
    ensures
        path_views(r@) == collect_spec(
            entry_models(entries@),
            excludes@,
            entries@.len() as int,
        ),
{
    let ghost m = entry_models(entries@);
    let ghost pats = excludes@;
    let n = entries.len();
    let mut flags: Vec<bool> = Vec::new();
    let mut i: usize = 0;
    while i < n
        invariant
            i <= n,
            n == entries@.len(),
            m == entry_models(entries@),
            pats == excludes@,
            flags@.len() == i,
            wf_entries(m),
            forall|k: int| 0 <= k < i ==> flags@[k] == survive(m, pats, k),
        decreases n - i,
    {
        let keep: bool = match entries[i].parent {
            None => true,
            Some(p) => {
                proof {
                    assert(m[i as int].parent == Some(p as int));
                }
                if flags[p] && !entries[p].is_repo {
                    match &entries[i].canon {
                        Some(c) => {
                            let normed = normalize(c);
                            !excludes.matches(normed.as_str())
                        },
                        None => false,
                    }
                } else {
                    false
                }
            },
        };
        proof {
            assert(keep == survive(m, pats, i as int));
        }
        flags.push(keep);
        i += 1;
    }
    let mut out: Vec<String> = Vec::new();
    let mut j: usize = 0;
    proof {
        assert(path_views(out@) =~= collect_spec(m, pats, 0));
    }
    while j < n
        invariant
            j <= n,
            n == entries@.len(),
            m == entry_models(entries@),
            pats == excludes@,
            flags@.len() == n,
            forall|k: int| 0 <= k < n ==> flags@[k] == survive(m, pats, k),
            path_views(out@) == collect_spec(m, pats, j as int),
        decreases n - j,
    {
        if flags[j] && entries[j].is_repo {
            out.push(entries[j].path.clone());
            proof {
                assert(path_views(out@) =~= collect_spec(m, pats, j as int + 1));
            }
        } else {
            proof {
                assert(path_views(out@) =~= collect_spec(m, pats, j as int + 1));
            }
        }
        j += 1;
    }
    out
}

} // verus!
