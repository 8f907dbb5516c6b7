//! The catalog of known repositories: an ordered sequence with unique local
//! paths, replace-or-insert addition, and a stable sort by display name.

use vstd::prelude::*;
use vstd::multiset::Multiset;
use vstd::pervasive::VecAdditionalExecFns;

use crate::repository::{lemma_lex_le_reflexive, lemma_lex_le_total, lemma_lex_le_transitive};
use crate::repository::{lex_le, name_of, str_eq, str_le, RepoModel, Repository};

verus! {

/// The models of a sequence of repository records.
pub open spec fn models(s: Seq<Repository>) -> Seq<RepoModel> {
    s.map_values(|r: Repository| r@)
}

/// No two entries are the same local repository.
pub open spec fn wf_catalog(s: Seq<RepoModel>) -> bool {
    forall|i: int, j: int| 0 <= i < j < s.len() ==> s[i].path != s[j].path
}

/// The first index holding an entry with the given path, if any.
pub open spec fn find_path(s: Seq<RepoModel>, p: Seq<char>) -> Option<int>
    decreases s.len(),
{
    if s.len() == 0 {
        None
    } else if s[0].path == p {
        Some(0)
    } else {
        match find_path(s.drop_first(), p) {
            None => None,
            Some(i) => Some(i + 1),
        }
    }
}

pub proof fn lemma_find_path(s: Seq<RepoModel>, p: Seq<char>)
    ensures
        match find_path(s, p) {
            None => forall|i: int| 0 <= i < s.len() ==> s[i].path != p,
            Some(i) => 0 <= i < s.len() && s[i].path == p && forall|j: int|
                0 <= j < i ==> s[j].path != p,
        },
    decreases s.len(),
{
    if s.len() == 0 {
    } else if s[0].path == p {
    } else {
        lemma_find_path(s.drop_first(), p);
        match find_path(s.drop_first(), p) {
            None => {
                assert forall|i: int| 0 <= i < s.len() implies s[i].path != p by {
                    if i > 0 {
                        assert(s.drop_first()[i - 1].path != p);
                    }
                }
            },
            Some(i) => {
                assert(s.drop_first()[i] == s[i + 1]);
                assert forall|j: int| 0 <= j < i + 1 implies s[j].path != p by {
                    if j > 0 {
                        assert(s.drop_first()[j - 1].path != p);
                    }
                }
            },
        }
    }
}

/// Replace the first entry with the same path, else append at the end.
pub open spec fn add_spec(s: Seq<RepoModel>, r: RepoModel) -> Seq<RepoModel> {
    match find_path(s, r.path) {
        Some(i) => s.update(i, r),
        None => s.push(r),
    }
}

/// After an addition the catalog is still well formed, holds the new record,
/// and holds no other record under its path.
pub proof fn lemma_add_spec_props(s: Seq<RepoModel>, r: RepoModel)
    requires
        wf_catalog(s),
    ensures
        wf_catalog(add_spec(s, r)),
        exists|i: int| 0 <= i < add_spec(s, r).len() && add_spec(s, r)[i] == r,
        forall|i: int|
            0 <= i < add_spec(s, r).len() && add_spec(s, r)[i].path == r.path ==> add_spec(s, r)[i]
                == r,
        forall|i: int|
            0 <= i < add_spec(s, r).len() && add_spec(s, r)[i].path != r.path ==> s.contains(
                add_spec(s, r)[i],
            ),
{
    lemma_find_path(s, r.path);
    match find_path(s, r.path) {
        Some(i) => {
            let s2 = s.update(i, r);
            assert(s2[i] == r);
            assert forall|k: int| 0 <= k < s2.len() && s2[k].path == r.path implies s2[k] == r by {
                if k != i {
                    assert(s[k].path == s[i].path);
                }
            }
        },
        None => {
            let s2 = s.push(r);
            assert(s2[s.len() as int] == r);
            assert forall|k: int| 0 <= k < s2.len() && s2[k].path != r.path implies s.contains(
                s2[k],
            ) by {
                assert(k < s.len());
            }
        },
    }
}

/// Adding under one path twice leaves exactly one entry for that path, and
/// its fields are those of the later addition.
pub proof fn lemma_add_twice_same_path(s: Seq<RepoModel>, r1: RepoModel, r2: RepoModel)
    requires
        wf_catalog(s),
        r1.path == r2.path,
    ensures
        ({
            let s2 = add_spec(add_spec(s, r1), r2);
            &&& wf_catalog(s2)
            &&& exists|i: int| 0 <= i < s2.len() && s2[i] == r2
            &&& forall|i: int, j: int|
                0 <= i < s2.len() && 0 <= j < s2.len() && s2[i].path == r2.path && s2[j].path
                    == r2.path ==> i == j
        }),
{
    lemma_add_spec_props(s, r1);
    lemma_add_spec_props(add_spec(s, r1), r2);
}

/// Orders two records by the display names of their paths.
pub open spec fn name_le(a: RepoModel, b: RepoModel) -> bool {
    lex_le(name_of(a.path), name_of(b.path))
}

/// Places `x` directly after every leading record ordered at or before it.
pub open spec fn insert_by_name(x: RepoModel, t: Seq<RepoModel>) -> Seq<RepoModel>
    decreases t.len(),
{
    if t.len() == 0 {
        seq![x]
    } else if name_le(t[0], x) {
        seq![t[0]] + insert_by_name(x, t.drop_first())
    } else {
        seq![x] + t
    }
}

/// Insertion sort over the records, by display name; equal names keep their
/// relative order.
pub open spec fn sort_spec(s: Seq<RepoModel>) -> Seq<RepoModel>
    decreases s.len(),
{
    if s.len() == 0 {
        Seq::empty()
    } else {
        insert_by_name(s.last(), sort_spec(s.drop_last()))
    }
}

/// Ascending by display name.
pub open spec fn sorted_by_name(s: Seq<RepoModel>) -> bool {
    forall|i: int, j: int| 0 <= i < j < s.len() ==> name_le(s[i], s[j])
}

proof fn lemma_insert_by_name_props(x: RepoModel, t: Seq<RepoModel>)
    requires
        sorted_by_name(t),
    ensures
        sorted_by_name(insert_by_name(x, t)),
        insert_by_name(x, t).to_multiset() == t.to_multiset().insert(x),
        insert_by_name(x, t).len() == t.len() + 1,
    decreases t.len(),
{
    broadcast use vstd::seq_lib::group_seq_properties;

    let out = insert_by_name(x, t);
    if t.len() == 0 {
        assert(out =~= Seq::empty().push(x));
        t.to_multiset_ensures();
        Seq::<RepoModel>::empty().to_multiset_ensures();
        assert(t.to_multiset() =~= Multiset::empty());
        assert(out.to_multiset() =~= t.to_multiset().insert(x));
    } else if name_le(t[0], x) {
        let rest = t.drop_first();
        assert(sorted_by_name(rest)) by {
            assert forall|i: int, j: int| 0 <= i < j < rest.len() implies name_le(
                rest[i],
                rest[j],
            ) by {
                assert(rest[i] == t[i + 1]);
                assert(rest[j] == t[j + 1]);
            }
        }
        lemma_insert_by_name_props(x, rest);
        let sub = insert_by_name(x, rest);
        assert(out == seq![t[0]] + sub);
        // Everything in `sub` is at or above `t[0]` in the order.
        assert forall|k: int| 0 <= k < sub.len() implies name_le(t[0], sub[k]) by {
            assert(sub.to_multiset().contains(sub[k]));
            assert(rest.to_multiset().insert(x).contains(sub[k]));
            if sub[k] == x {
                assert(name_le(t[0], x)) by {
                    lemma_lex_le_total(name_of(t[0].path), name_of(x.path));
                }
            }
            if rest.to_multiset().contains(sub[k]) {
                assert(rest.contains(sub[k]));
                let m = choose|m: int| 0 <= m < rest.len() && rest[m] == sub[k];
                assert(rest[m] == t[m + 1]);
                assert(name_le(t[0], t[m + 1]));
            }
        }
        assert forall|i: int, j: int| 0 <= i < j < out.len() implies name_le(out[i], out[j]) by {
            if i > 0 {
                assert(out[i] == sub[i - 1]);
                assert(out[j] == sub[j - 1]);
            } else {
                assert(out[j] == sub[j - 1]);
                assert(name_le(t[0], sub[j - 1]));
            }
        }
        // Multiset: out = t[0] :: insert(x, rest).
        assert(out.to_multiset() =~= t.to_multiset().insert(x)) by {
            assert(seq![t[0]] + sub =~= sub.insert(0, t[0]));
            vstd::seq_lib::lemma_multiset_commutative(seq![t[0]], sub);
            assert(seq![t[0]].to_multiset() =~= Multiset::empty().insert(t[0])) by {
                assert(seq![t[0]] =~= Seq::empty().push(t[0]));
                Seq::<RepoModel>::empty().to_multiset_ensures();
            }
            assert(seq![t[0]] + rest =~= t);
            vstd::seq_lib::lemma_multiset_commutative(seq![t[0]], rest);
        }
    } else {
        assert(name_le(x, t[0])) by {
            lemma_lex_le_total(name_of(t[0].path), name_of(x.path));
        }
        assert(out == seq![x] + t);
        assert forall|i: int, j: int| 0 <= i < j < out.len() implies name_le(out[i], out[j]) by {
            if i > 0 {
                assert(out[i] == t[i - 1]);
                assert(out[j] == t[j - 1]);
            } else if j > 0 {
                assert(out[j] == t[j - 1]);
                assert(name_le(x, t[0]));
                if j > 1 {
                    assert(name_le(t[0], t[j - 1]));
                    lemma_lex_le_transitive(
                        name_of(x.path),
                        name_of(t[0].path),
                        name_of(t[j - 1].path),
                    );
                }
            }
        }
        assert(out.to_multiset() =~= t.to_multiset().insert(x)) by {
            vstd::seq_lib::lemma_multiset_commutative(seq![x], t);
            assert(seq![x].to_multiset() =~= Multiset::empty().insert(x)) by {
                assert(seq![x] =~= Seq::empty().push(x));
                Seq::<RepoModel>::empty().to_multiset_ensures();
            }
        }
    }
}

/// The filter of the records whose display name is `n`, in catalog order.
pub open spec fn filter_name(s: Seq<RepoModel>, n: Seq<char>) -> Seq<RepoModel> {
    s.filter(|r: RepoModel| name_of(r.path) == n)
}

proof fn lemma_filter_singleton(x: RepoModel, pred: spec_fn(RepoModel) -> bool)
    ensures
        seq![x].filter(pred) == if pred(x) {
            seq![x]
        } else {
            Seq::<RepoModel>::empty()
        },
{
    reveal(Seq::filter);
    let e = Seq::<RepoModel>::empty();
    assert(seq![x].drop_last() =~= e);
    assert(seq![x].last() == x);
    assert(e.filter(pred) == e);
    if pred(x) {
        assert(seq![x].filter(pred) =~= seq![x]);
    } else {
        assert(seq![x].filter(pred) =~= e);
    }
}

proof fn lemma_insert_by_name_filter(x: RepoModel, t: Seq<RepoModel>, n: Seq<char>)
    requires
        sorted_by_name(t),
    ensures
        filter_name(insert_by_name(x, t), n) == if name_of(x.path) == n {
            filter_name(t, n).push(x)
        } else {
            filter_name(t, n)
        },
    decreases t.len(),
{
    reveal(Seq::filter);
    let pred = |r: RepoModel| name_of(r.path) == n;
    let out = insert_by_name(x, t);
    if t.len() == 0 {
        assert(out =~= seq![x]);
        assert(out.drop_last() =~= Seq::<RepoModel>::empty());
        assert(t.filter(pred) =~= Seq::<RepoModel>::empty());
        if pred(x) {
            assert(out.filter(pred) =~= t.filter(pred).push(x));
        } else {
            assert(out.filter(pred) =~= t.filter(pred));
        }
    } else if name_le(t[0], x) {
        let rest = t.drop_first();
        assert(sorted_by_name(rest)) by {
            assert forall|i: int, j: int| 0 <= i < j < rest.len() implies name_le(
                rest[i],
                rest[j],
            ) by {
                assert(rest[i] == t[i + 1]);
                assert(rest[j] == t[j + 1]);
            }
        }
        lemma_insert_by_name_filter(x, rest, n);
        Seq::filter_distributes_over_add(seq![t[0]], insert_by_name(x, rest), pred);
        Seq::filter_distributes_over_add(seq![t[0]], rest, pred);
        assert(seq![t[0]] + rest =~= t);
        if pred(x) {
            assert(seq![t[0]].filter(pred) + (rest.filter(pred).push(x)) =~= (seq![t[0]].filter(
                pred,
            ) + rest.filter(pred)).push(x));
        }
    } else {
        // `x` lands before `t`; when its name is `n`, nothing with name `n`
        // may stand in `t`, else stability would need `x` after it.
        Seq::filter_distributes_over_add(seq![x], t, pred);
        if pred(x) {
            // All of `t` is strictly above `x`, so none of it has name `n`.
            assert forall|k: int| 0 <= k < t.len() implies !pred(t[k]) by {
                assert(name_le(t[0], t[k])) by {
                    if k == 0 {
                        lemma_lex_le_reflexive(name_of(t[0].path));
                    }
                }
                if pred(t[k]) {
                    // Then t[k]'s name equals x's name, so t[0] <= x.
                    assert(name_le(x, t[0])) by {
                        lemma_lex_le_total(name_of(t[0].path), name_of(x.path));
                    }
                    lemma_lex_le_transitive(
                        name_of(t[0].path),
                        name_of(t[k].path),
                        name_of(x.path),
                    );
                    assert(false);
                }
            }
            t.lemma_all_neg_filter_empty(pred);
            lemma_filter_singleton(x, pred);
            assert(t.filter(pred) =~= Seq::<RepoModel>::empty());
            assert(seq![x].filter(pred) + t.filter(pred) =~= t.filter(pred).push(x));
        } else {
            lemma_filter_singleton(x, pred);
            assert(seq![x].filter(pred) + t.filter(pred) =~= t.filter(pred));
        }
    }
}

/// The sort is ascending by display name, keeps exactly the same records,
/// and keeps the relative order of records that share a display name.
pub proof fn lemma_sort_spec_props(s: Seq<RepoModel>)
    ensures
        sorted_by_name(sort_spec(s)),
        sort_spec(s).to_multiset() == s.to_multiset(),
        sort_spec(s).len() == s.len(),
        forall|n: Seq<char>| #[trigger] filter_name(sort_spec(s), n) == filter_name(s, n),
    decreases s.len(),
{
    reveal(Seq::filter);
    broadcast use vstd::seq_lib::group_seq_properties;

    if s.len() == 0 {
        s.to_multiset_ensures();
        Seq::<RepoModel>::empty().to_multiset_ensures();
        assert(sort_spec(s) =~= Seq::<RepoModel>::empty());
        assert(s =~= Seq::<RepoModel>::empty());
    } else {
        let prev = s.drop_last();
        lemma_sort_spec_props(prev);
        lemma_insert_by_name_props(s.last(), sort_spec(prev));
        prev.to_multiset_ensures();
        assert(prev.push(s.last()) =~= s);
        assert(sort_spec(s).to_multiset() == s.to_multiset()) by {
            assert(sort_spec(s).to_multiset() == sort_spec(prev).to_multiset().insert(s.last()));
            assert(prev.push(s.last()).to_multiset() =~= prev.to_multiset().insert(s.last()));
        }
        assert forall|n: Seq<char>| #[trigger] filter_name(sort_spec(s), n) == filter_name(
            s,
            n,
        ) by {
            lemma_insert_by_name_filter(s.last(), sort_spec(prev), n);
            let pred = |r: RepoModel| name_of(r.path) == n;
            assert(s.filter(pred) == if pred(s.last()) {
                prev.filter(pred).push(s.last())
            } else {
                prev.filter(pred)
            });
        }
    }
}

/// The catalog: an ordered sequence of repository records.
pub struct RepositoryCatalog {
    pub repositories: Vec<Repository>,
}

impl View for RepositoryCatalog {
    type V = Seq<RepoModel>;

    open spec fn view(&self) -> Seq<RepoModel> {
        models(self.repositories@)
    }
}

/// What an addition did: took a fresh slot, or overwrote the entry that
/// already carried the same local path.
#[derive(Clone, Copy, PartialEq, Eq, Structural, Debug)]
pub enum AddOutcome {
    Added,
    Overwrote,
}

impl RepositoryCatalog {
    pub fn new() -> (r: RepositoryCatalog)
        ensures
            r@ == Seq::<RepoModel>::empty(),
    {
        let r = RepositoryCatalog { repositories: Vec::new() };
        proof {
            assert(r@ =~= Seq::<RepoModel>::empty());
        }
        r
    }

    pub fn from_entries(repositories: Vec<Repository>) -> (r: RepositoryCatalog)
        ensures
            r@ == models(repositories@),
    {
        RepositoryCatalog { repositories }
    }

    pub fn repositories(&self) -> (r: &Vec<Repository>)
        ensures
            models(r@) == self@,
    {
        &self.repositories
    }

    pub fn len(&self) -> (r: usize)
        ensures
            r == self@.len(),
    {
        self.repositories.len()
    }

    /// Replace-or-insert: the entry that is the same local repository is
    /// overwritten; otherwise the record is appended.
    pub fn add(&mut self, repo: Repository) -> (r: AddOutcome)
        ensures
            final(self)@ == add_spec(old(self)@, repo@),
            (r is Overwrote) == (find_path(old(self)@, repo@.path) is Some),
            wf_catalog(old(self)@) ==> wf_catalog(final(self)@),
    {
        proof {
            lemma_find_path(old(self)@, repo@.path);
            if wf_catalog(old(self)@) {
                lemma_add_spec_props(old(self)@, repo@);
            }
        }
        let n = self.repositories.len();
        let mut i: usize = 0;
        while i < n
            invariant
                i <= n,
                n == old(self)@.len(),
                self.repositories@ == old(self).repositories@,
                forall|k: int| 0 <= k < i ==> old(self)@[k].path != repo@.path,
            decreases n - i,
        {
            if str_eq(self.repositories[i].path.as_str(), repo.path.as_str()) {
                proof {
                    // `i` is the first index with this path, hence the one
                    // `find_path` names.
                    lemma_find_path(old(self)@, repo@.path);
                    assert(old(self)@[i as int].path == repo@.path);
                    match find_path(old(self)@, repo@.path) {
                        Some(fi) => {
                            assert(old(self)@[fi].path == repo@.path);
                            if fi < i {
                                assert(old(self)@[fi].path != repo@.path);
                            }
                            if i < fi {
                                assert(old(self)@[i as int].path != repo@.path);
                            }
                        },
                        None => {
                            assert(false);
                        },
                    }
                }
                self.repositories.set(i, repo);
                proof {
                    assert(self@ =~= old(self)@.update(i as int, repo@));
                }
                return AddOutcome::Overwrote;
            }
            i += 1;
        }
        proof {
            match find_path(old(self)@, repo@.path) {
                Some(fi) => {
                    assert(old(self)@[fi].path == repo@.path);
                    assert(old(self)@[fi].path != repo@.path);
                },
                None => {},
            }
        }
        self.repositories.push(repo);
        proof {
            assert(self@ =~= old(self)@.push(repo@));
        }
        AddOutcome::Added
    }

    /// Stable sort of the entries, ascending by display name.
    pub fn sort(&mut self)
        ensures
            final(self)@ == sort_spec(old(self)@),
    {
        let ghost all = models(old(self).repositories@);
        let mut out: Vec<Repository> = Vec::new();
        let n = self.repositories.len();
        let mut i: usize = 0;
        proof {
            assert(all.take(0) =~= Seq::<RepoModel>::empty());
            assert(models(out@) =~= Seq::<RepoModel>::empty());
        }
        while i < n
            invariant
                i <= n,
                n == all.len(),
                self.repositories@ == old(self).repositories@,
                models(out@) == sort_spec(all.take(i as int)),
                all == models(self.repositories@),
            decreases n - i,
        {
            let x = self.repositories[i].clone();
            proof {
                lemma_sort_spec_props(all.take(i as int));
            }
            let j = insertion_point(&out, &x);
            out.insert(j, x);
            proof {
                let prev = sort_spec(all.take(i as int));
                lemma_insert_at(x@, prev, j as int);
                assert(models(out@) =~= prev.insert(j as int, x@));
                assert(all.take(i as int + 1).drop_last() =~= all.take(i as int));
                assert(all.take(i as int + 1).last() == all[i as int]);
                assert(all[i as int] == x@);
            }
            i += 1;
        }
        proof {
            assert(all.take(n as int) =~= all);
        }
        self.repositories = out;
    }
}

/// The first position in `out` whose record is ordered strictly after `x`
/// by display name, or the length when there is none.
fn insertion_point(out: &Vec<Repository>, x: &Repository) -> (j: usize)
    ensures
        j <= out@.len(),
        forall|k: int| 0 <= k < j ==> name_le(models(out@)[k], x@),
        j < out@.len() ==> !name_le(models(out@)[j as int], x@),
{
    let xname = x.name();
    let n = out.len();
    let mut j: usize = 0;
    while j < n
        invariant
            j <= n,
            n == out@.len(),
            xname@ == name_of(x@.path),
            forall|k: int| 0 <= k < j ==> name_le(models(out@)[k], x@),
        decreases n - j,
    {
        let jname = out[j].name();
        if !str_le(jname.as_str(), xname.as_str()) {
            return j;
        }
        j += 1;
    }
    j
}

/// Inserting at the first position not ordered at-or-before `x` is what
/// `insert_by_name` computes.
proof fn lemma_insert_at(x: RepoModel, t: Seq<RepoModel>, j: int)
    requires
        0 <= j <= t.len(),
        forall|k: int| 0 <= k < j ==> name_le(t[k], x),
        j < t.len() ==> !name_le(t[j], x),
    ensures
        insert_by_name(x, t) == t.insert(j, x),
    decreases t.len(),
{
    if t.len() == 0 {
        assert(insert_by_name(x, t) =~= t.insert(0, x));
    } else if j == 0 {
        assert(!name_le(t[0], x));
        assert(insert_by_name(x, t) =~= t.insert(0, x));
    } else {
        assert(name_le(t[0], x));
        let rest = t.drop_first();
        assert forall|k: int| 0 <= k < j - 1 implies name_le(rest[k], x) by {
            assert(rest[k] == t[k + 1]);
        }
        if j - 1 < rest.len() {
            assert(rest[j - 1] == t[j]);
        }
        lemma_insert_at(x, rest, j - 1);
        assert(insert_by_name(x, t) == seq![t[0]] + insert_by_name(x, rest));
        assert(seq![t[0]] + rest.insert(j - 1, x) =~= t.insert(j, x));
    }
}

} // verus!
