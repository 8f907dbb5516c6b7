//! The orchestrator: owns the catalog and the configuration, applies the
//! catalog mutations (add, refresh, sort), and resolves queries against the
//! chosen root directory.

use vstd::prelude::*;

use crate::cache;
use crate::cache::encode_spec;
use crate::catalog::{
    add_spec, find_path, models, wf_catalog, AddOutcome, RepositoryCatalog,
};
use crate::matcher::{excluded, ExcludeMatcher};
use crate::query::{resolve_spec, Query};
use crate::repository::{RepoModel, Remote, Repository, VcsKind};
use crate::Error;

verus! {

/// The read-only configuration of one invocation: the root directory for
/// query resolution, the default scan roots, and the exclusion patterns.
pub struct Config {
    pub root_dir: Option<String>,
    pub include_dirs: Vec<String>,
    pub excludes: ExcludeMatcher,
}

impl Config {
    /// Builds a configuration; an exclusion pattern the glob grammar
    /// refuses is a configuration error.
    pub fn new(
        root_dir: Option<String>,
        include_dirs: Vec<String>,
        patterns: &Vec<String>,
    ) -> (r: Result<Config, Error>)
        ensures
            match r {
                Ok(c) => {
                    &&& c.root_dir == root_dir
                    &&& c.include_dirs == include_dirs
                    &&& c.excludes@.len() == patterns@.len()
                    &&& forall|i: int|
                        0 <= i < patterns@.len() ==> crate::matcher::glob_ok(
                            #[trigger] patterns@[i]@,
                        )
                    &&& forall|i: int|
                        0 <= i < patterns@.len() ==> c.excludes@[i] == crate::matcher::compiled_of(
                            #[trigger] patterns@[i]@,
                        )
                },
                Err(e) => e == Error::ConfigError && exists|i: int|
                    0 <= i < patterns@.len() && !crate::matcher::glob_ok(
                        #[trigger] patterns@[i]@,
                    ),
            },
    {
        let excludes = match ExcludeMatcher::new(patterns) {
            Ok(m) => m,
            Err(e) => {
                return Err(e);
            },
        };
        Ok(Config { root_dir, include_dirs, excludes })
    }

    pub fn root_dir(&self) -> (r: &Option<String>)
        ensures
            r == &self.root_dir,
    {
        &self.root_dir
    }

    pub fn include_dirs(&self) -> (r: &Vec<String>)
        ensures
            r == &self.include_dirs,
    {
        &self.include_dirs
    }

    pub fn exclude_patterns(&self) -> (r: &ExcludeMatcher)
        ensures
            r == &self.excludes,
    {
        &self.excludes
    }
}

/// The models of a sequence of refresh outcomes.
pub open spec fn opt_models(s: Seq<Option<Repository>>) -> Seq<Option<RepoModel>> {
    s.map_values(
        |o: Option<Repository>|
            match o {
                Some(r) => Some(r@),
                None => None,
            },
    )
}

/// What one refresh outcome keeps: nothing when the entry vanished or is
/// now excluded, else the refreshed record.
pub open spec fn keep_step(o: Option<RepoModel>, pats: Seq<glob::Pattern>) -> Seq<RepoModel> {
    match o {
        None => Seq::empty(),
        Some(r) => if excluded(pats, r.path) {
            Seq::empty()
        } else {
            seq![r]
        },
    }
}

/// The catalog a refresh leaves: the surviving refreshed records, in their
/// original relative order.
pub open spec fn refresh_spec(rs: Seq<Option<RepoModel>>, pats: Seq<glob::Pattern>) -> Seq<
    RepoModel,
>
    decreases rs.len(),
{
    if rs.len() == 0 {
        Seq::empty()
    } else {
        refresh_spec(rs.drop_last(), pats) + keep_step(rs.last(), pats)
    }
}

/// The path reported for one dropped entry, if it is dropped.
pub open spec fn dropped_step(
    old_path: Seq<char>,
    o: Option<RepoModel>,
    pats: Seq<glob::Pattern>,
) -> Seq<Seq<char>> {
    match o {
        None => seq![old_path],
        Some(r) => if excluded(pats, r.path) {
            seq![old_path]
        } else {
            Seq::empty()
        },
    }
}

/// The paths of the dropped entries, in their original order.
pub open spec fn dropped_spec(
    olds: Seq<RepoModel>,
    rs: Seq<Option<RepoModel>>,
    pats: Seq<glob::Pattern>,
) -> Seq<Seq<char>>
    decreases rs.len(),
{
    if rs.len() == 0 || olds.len() == 0 {
        Seq::empty()
    } else {
        dropped_spec(olds.drop_last(), rs.drop_last(), pats) + dropped_step(
            olds.last().path,
            rs.last(),
            pats,
        )
    }
}

/// A refresh of a well-formed catalog leaves a well-formed catalog, and
/// every surviving path was a catalog path.
pub proof fn lemma_refresh_wf(
    olds: Seq<RepoModel>,
    rs: Seq<Option<RepoModel>>,
    pats: Seq<glob::Pattern>,
)
    requires
        olds.len() == rs.len(),
        forall|i: int|
            0 <= i < rs.len() ==> match #[trigger] rs[i] {
                Some(r) => r.path == olds[i].path,
                None => true,
            },
        wf_catalog(olds),
    ensures
        wf_catalog(refresh_spec(rs, pats)),
        forall|k: int|
            0 <= k < refresh_spec(rs, pats).len() ==> exists|j: int|
                0 <= j < olds.len() && (#[trigger] refresh_spec(rs, pats)[k]).path
                    == olds[j].path,
    decreases rs.len(),
{
    if rs.len() == 0 {
    } else {
        let op = olds.drop_last();
        let rp = rs.drop_last();
        assert forall|i: int| 0 <= i < rp.len() implies match #[trigger] rp[i] {
            Some(r) => r.path == op[i].path,
            None => true,
        } by {
            assert(rp[i] == rs[i]);
            assert(op[i] == olds[i]);
        }
        lemma_refresh_wf(op, rp, pats);
        let res_p = refresh_spec(rp, pats);
        let res = refresh_spec(rs, pats);
        match rs.last() {
            None => {
                assert(res =~= res_p);
            },
            Some(r) => {
                if excluded(pats, r.path) {
                    assert(res =~= res_p);
                } else {
                    assert(res =~= res_p.push(r));
                    assert(r.path == olds.last().path);
                    assert forall|a: int, b: int| 0 <= a < b < res.len() implies res[a].path
                        != res[b].path by {
                        if b == res.len() - 1 {
                            let j = choose|j: int|
                                0 <= j < op.len() && res_p[a].path == op[j].path;
                            assert(olds[j].path != olds[olds.len() - 1].path);
                        }
                    }
                    assert forall|k: int| 0 <= k < res.len() implies exists|j: int|
                        0 <= j < olds.len() && (#[trigger] res[k]).path == olds[j].path by {
                        if k == res.len() - 1 {
                            assert(res[k].path == olds[olds.len() - 1].path);
                        } else {
                            let j = choose|j: int|
                                0 <= j < op.len() && res_p[k].path == op[j].path;
                            assert(res[k].path == olds[j].path);
                        }
                    }
                }
            },
        }
    }
}

/// The catalog additions an import performs, in discovery order.
pub open spec fn add_all(s: Seq<RepoModel>, rs: Seq<RepoModel>) -> Seq<RepoModel>
    decreases rs.len(),
{
    if rs.len() == 0 {
        s
    } else {
        add_spec(add_all(s, rs.drop_last()), rs.last())
    }
}

/// The root a query is resolved under: an explicitly chosen root wins over
/// the configured one.
pub open spec fn effective_root(w: &Workspace) -> Option<Seq<char>> {
    match w.root {
        Some(r) => Some(r@),
        None => match w.config.root_dir {
            Some(r) => Some(r@),
            None => None,
        },
    }
}

/// The orchestrator of one invocation: the catalog, the configuration, and
/// an optionally overridden root directory.
pub struct Workspace {
    pub cache: RepositoryCatalog,
    pub config: Config,
    pub root: Option<String>,
}

impl Workspace {
    /// Builds a workspace over a loaded catalog and configuration; the
    /// caller reads both in from their files first.
    pub fn new(config: Config, cache: RepositoryCatalog) -> (w: Workspace)
        ensures
            w.cache == cache,
            w.config == config,
            w.root is None,
    {
        Workspace { cache, config, root: None }
    }

    /// Chooses an explicit root directory for query resolution.
    pub fn root_dir(self, root: Option<String>) -> (w: Workspace)
        ensures
            w.cache == self.cache,
            w.config == self.config,
            w.root == root,
    {
        Workspace { root, ..self }
    }

    /// The managed repositories, in catalog order.
    pub fn repositories(&self) -> (r: &Vec<Repository>)
        ensures
            models(r@) == self.cache@,
    {
        self.cache.repositories()
    }

    pub fn config(&self) -> (r: &Config)
        ensures
            r == &self.config,
    {
        &self.config
    }

    /// Replace-or-insert one record; says which of the two happened.
    pub fn add_repository(&mut self, repo: Repository) -> (r: AddOutcome)
        ensures
            final(self).cache@ == add_spec(old(self).cache@, repo@),
            (r is Overwrote) == (find_path(old(self).cache@, repo@.path) is Some),
            wf_catalog(old(self).cache@) ==> wf_catalog(final(self).cache@),
            final(self).config == old(self).config,
            final(self).root == old(self).root,
    {
        self.cache.add(repo)
    }

    /// Adds every discovered repository, in discovery order.
    pub fn import_repositories(&mut self, found: Vec<Repository>)
        ensures
            final(self).cache@ == add_all(old(self).cache@, models(found@)),
            wf_catalog(old(self).cache@) ==> wf_catalog(final(self).cache@),
            final(self).config == old(self).config,
            final(self).root == old(self).root,
    {
        let ghost fs = models(found@);
        let n = found.len();
        let mut i: usize = 0;
        proof {
            assert(fs.take(0) =~= Seq::<RepoModel>::empty());
        }
        while i < n
            invariant
                i <= n,
                n == found@.len(),
                fs == models(found@),
                self.cache@ == add_all(old(self).cache@, fs.take(i as int)),
                wf_catalog(old(self).cache@) ==> wf_catalog(self.cache@),
                self.config == old(self).config,
                self.root == old(self).root,
            decreases n - i,
        {
            let repo = found[i].clone();
            self.cache.add(repo);
            proof {
                assert(fs.take(i as int + 1).drop_last() =~= fs.take(i as int));
                assert(fs.take(i as int + 1).last() == fs[i as int]);
            }
            i += 1;
        }
        proof {
            assert(fs.take(n as int) =~= fs);
        }
    }

    /// Re-validates the catalog against the refresh outcomes the caller
    /// probed, one per entry in order: an entry whose outcome is absent, or
    /// whose refreshed path an exclusion pattern matches, is dropped; all
    /// others stay, refreshed, in their original relative order. Returns
    /// the dropped paths.
    pub fn drop_invalid_repositories(&mut self, refreshed: &Vec<Option<Repository>>) -> (r: Vec<
        String,
    >)
        requires
            refreshed@.len() == old(self).cache@.len(),
            forall|i: int|
                0 <= i < refreshed@.len() ==> match #[trigger] refreshed@[i] {
                    Some(rep) => rep@.path == old(self).cache@[i].path,
                    None => true,
                },
    ensures
            final(self).cache@ == refresh_spec(
                opt_models(refreshed@),
                old(self).config.excludes@,
            ),
            crate::scanner::path_views(r@) == dropped_spec(
                old(self).cache@,
                opt_models(refreshed@),
                old(self).config.excludes@,
            ),
            wf_catalog(old(self).cache@) ==> wf_catalog(final(self).cache@),
            final(self).config == old(self).config,
            final(self).root == old(self).root,
    {
        let ghost olds = self.cache@;
        let ghost rs = opt_models(refreshed@);
        let ghost pats = self.config.excludes@;
        let mut kept: Vec<Repository> = Vec::new();
        let mut dropped: Vec<String> = Vec::new();
        let n = refreshed.len();
        let mut i: usize = 0;
        proof {
            assert(rs.take(0) =~= Seq::<Option<RepoModel>>::empty());
            assert(olds.take(0) =~= Seq::<RepoModel>::empty());
            assert(models(kept@) =~= refresh_spec(rs.take(0), pats));
            assert(crate::scanner::path_views(dropped@) =~= dropped_spec(
                olds.take(0),
                rs.take(0),
                pats,
            ));
        }
        while i < n
            invariant
                i <= n,
                n == refreshed@.len(),
                n == old(self).cache@.len(),
                self == old(self),
                olds == old(self).cache@,
                rs == opt_models(refreshed@),
                pats == old(self).config.excludes@,
                models(kept@) == refresh_spec(rs.take(i as int), pats),
                crate::scanner::path_views(dropped@) == dropped_spec(
                    olds.take(i as int),
                    rs.take(i as int),
                    pats,
                ),
            decreases n - i,
        {
            proof {
                assert(rs.take(i as int + 1).drop_last() =~= rs.take(i as int));
                assert(olds.take(i as int + 1).drop_last() =~= olds.take(i as int));
                assert(rs.take(i as int + 1).last() == rs[i as int]);
                assert(olds.take(i as int + 1).last() == olds[i as int]);
            }
            match &refreshed[i] {
                Some(rep) => {
                    if self.config.excludes.matches(rep.path.as_str()) {
                        dropped.push(self.cache.repositories()[i].path_string());
                        proof {
                            assert(crate::scanner::path_views(dropped@) =~= dropped_spec(
                                olds.take(i as int + 1),
                                rs.take(i as int + 1),
                                pats,
                            ));
                            assert(models(kept@) =~= refresh_spec(rs.take(i as int + 1), pats));
                        }
                    } else {
                        kept.push(rep.clone());
                        proof {
                            assert(models(kept@) =~= refresh_spec(rs.take(i as int + 1), pats));
                            assert(crate::scanner::path_views(dropped@) =~= dropped_spec(
                                olds.take(i as int + 1),
                                rs.take(i as int + 1),
                                pats,
                            ));
                        }
                    }
                },
                None => {
                    dropped.push(self.cache.repositories()[i].path_string());
                    proof {
                        assert(crate::scanner::path_views(dropped@) =~= dropped_spec(
                            olds.take(i as int + 1),
                            rs.take(i as int + 1),
                            pats,
                        ));
                        assert(models(kept@) =~= refresh_spec(rs.take(i as int + 1), pats));
                    }
                },
            }
            i += 1;
        }
        proof {
            assert(rs.take(n as int) =~= rs);
            assert(olds.take(n as int) =~= olds);
            if wf_catalog(olds) {
                lemma_refresh_wf(olds, rs, pats);
            }
        }
        self.cache = RepositoryCatalog::from_entries(kept);
        dropped
    }

    /// Stable sort of the catalog by display name; in memory only, until
    /// the cache text is written out.
    pub fn sort_repositories(&mut self)
        ensures
            final(self).cache@ == crate::catalog::sort_spec(old(self).cache@),
            final(self).config == old(self).config,
            final(self).root == old(self).root,
    {
        self.cache.sort()
    }

    /// The durable text of the current catalog; the caller writes it to
    /// the cache file in one atomic replacement.
    pub fn save_cache(&self) -> (r: String)
        ensures
            r@ == encode_spec(self.cache@),
    {
        cache::save(&self.cache)
    }

    /// Resolves a query to its destination path under the chosen root, or
    /// reports that no root is available.
    pub fn resolve_query(&self, query: &Query) -> (r: Result<String, Error>)
        ensures
            match r {
                Ok(p) => effective_root(self) is Some && p@ == resolve_spec(
                    effective_root(self).unwrap(),
                    query@,
                ),
                Err(e) => effective_root(self) is None && e == Error::NoRootConfigured,
            },
    {
        let root: &String = match &self.root {
            Some(r) => r,
            None => match &self.config.root_dir {
                Some(r) => r,
                None => {
                    return Err(Error::NoRootConfigured);
                },
            },
        };
        Ok(query.resolve(root.as_str()))
    }

    /// The record for a probed path: present exactly when the probe found
    /// a version-control kind. An absent remote is a valid probe outcome —
    /// the repository is purely local — and leaves the record without one.
    pub fn new_repository_from_path(
        &self,
        path: &String,
        vcs: Option<VcsKind>,
        remote: Option<String>,
    ) -> (r: Option<Repository>)
        ensures
            match vcs {
                Some(k) => match r {
                    Some(rep) => rep@.path == path@ && rep@.vcs == k && rep@.remote == match remote {
                        Some(u) => Some(u@),
                        None => None::<Seq<char>>,
                    },
                    None => false,
                },
                None => r is None,
            },
    {
        let k = match vcs {
            Some(k) => k,
            None => {
                return None;
            },
        };
        let rem = match remote {
            Some(u) => Some(Remote::new(u)),
            None => None,
        };
        Some(Repository::new(path.clone(), k, rem))
    }
}

} // verus!
