//! The durable form of the catalog: a line-oriented text, one record as
//! three lines (path, kind, remote), with `\` and the line break escaped
//! inside fields. Decoding an encoded catalog returns it exactly.

use vstd::prelude::*;

use crate::catalog::{models, RepositoryCatalog};
use crate::repository::{RepoModel, Remote, Repository, VcsKind};
use crate::Error;

verus! {

/// The escaped form of one character.
pub open spec fn enc_char(c: char) -> Seq<char> {
    if c == '\\' {
        seq!['\\', '\\']
    } else if c == '\n' {
        seq!['\\', 'n']
    } else {
        seq![c]
    }
}

/// The escaped form of a field: line breaks and backslashes are escaped, so
/// the unescaped line break that ends the field cannot occur inside it.
pub open spec fn esc(s: Seq<char>) -> Seq<char>
    decreases s.len(),
{
    if s.len() == 0 {
        Seq::empty()
    } else {
        enc_char(s[0]) + esc(s.drop_first())
    }
}

proof fn lemma_esc_push(s: Seq<char>, c: char)
    ensures
        esc(s.push(c)) == esc(s) + enc_char(c),
    decreases s.len(),
{
    if s.len() == 0 {
        assert(s.push(c).len() == 1);
        assert(s.push(c)[0] == c);
        assert(s.push(c).drop_first() =~= Seq::<char>::empty());
        assert(esc(s.push(c)) == enc_char(c) + esc(Seq::<char>::empty()));
        assert(enc_char(c) + Seq::<char>::empty() =~= enc_char(c));
        assert(esc(s) + enc_char(c) =~= enc_char(c));
    } else {
        lemma_esc_push(s.drop_first(), c);
        assert(s.push(c).drop_first() =~= s.drop_first().push(c));
        assert(s.push(c)[0] == s[0]);
        assert(enc_char(s[0]) + (esc(s.drop_first()) + enc_char(c)) =~= (enc_char(s[0]) + esc(
            s.drop_first(),
        )) + enc_char(c));
    }
}

/// Reads one escaped field up to its unescaped line break; returns the
/// field and the remainder after the line break, or nothing when the text
/// ends early or holds an unknown escape.
pub open spec fn read_line(s: Seq<char>) -> Option<(Seq<char>, Seq<char>)>
    decreases s.len(),
{
    if s.len() == 0 {
        None
    } else if s[0] == '\n' {
        Some((Seq::empty(), s.drop_first()))
    } else if s[0] == '\\' {
        if s.len() < 2 {
            None
        } else if s[1] == '\\' || s[1] == 'n' {
            let c = if s[1] == '\\' {
                '\\'
            } else {
                '\n'
            };
            match read_line(s.skip(2)) {
                None => None,
                Some((t, rest)) => Some((seq![c] + t, rest)),
            }
        } else {
            None
        }
    } else {
        match read_line(s.drop_first()) {
            None => None,
            Some((t, rest)) => Some((seq![s[0]] + t, rest)),
        }
    }
}

proof fn lemma_read_line_consumes(s: Seq<char>)
    ensures
        match read_line(s) {
            Some((t, rest)) => rest.len() < s.len(),
            None => true,
        },
    decreases s.len(),
{
    if s.len() == 0 {
    } else if s[0] == '\n' {
    } else if s[0] == '\\' {
        if s.len() >= 2 && (s[1] == '\\' || s[1] == 'n') {
            lemma_read_line_consumes(s.skip(2));
        }
    } else {
        lemma_read_line_consumes(s.drop_first());
    }
}

/// Decoding an escaped field reads back exactly the field and leaves
/// exactly the remainder.
proof fn lemma_read_line_round(s: Seq<char>, rest: Seq<char>)
    ensures
        read_line(esc(s) + seq!['\n'] + rest) == Some((s, rest)),
    decreases s.len(),
{
    let input = esc(s) + seq!['\n'] + rest;
    if s.len() == 0 {
        assert(input[0] == '\n');
        assert(input.drop_first() =~= rest);
    } else {
        lemma_read_line_round(s.drop_first(), rest);
        let c = s[0];
        let tail_input = esc(s.drop_first()) + seq!['\n'] + rest;
        if c == '\\' {
            assert(input[0] == '\\');
            assert(input[1] == '\\');
            assert(input.skip(2) =~= tail_input);
            assert(seq!['\\'] + s.drop_first() =~= s);
        } else if c == '\n' {
            assert(input[0] == '\\');
            assert(input[1] == 'n');
            assert(input.skip(2) =~= tail_input);
            assert(seq!['\n'] + s.drop_first() =~= s);
        } else {
            assert(input[0] == c);
            assert(input.drop_first() =~= tail_input);
            assert(seq![c] + s.drop_first() =~= s);
        }
    }
}

/// The one-character tag of a kind in the cache text.
pub open spec fn kind_char(k: VcsKind) -> char {
    match k {
        VcsKind::Git => 'g',
        VcsKind::Mercurial => 'h',
        VcsKind::Darcs => 'd',
        VcsKind::Pijul => 'p',
    }
}

/// The kind a tag character names, if any.
pub open spec fn parse_kind(c: char) -> Option<VcsKind> {
    if c == 'g' {
        Some(VcsKind::Git)
    } else if c == 'h' {
        Some(VcsKind::Mercurial)
    } else if c == 'd' {
        Some(VcsKind::Darcs)
    } else if c == 'p' {
        Some(VcsKind::Pijul)
    } else {
        None
    }
}

/// The encoded form of one record: the escaped path line, the kind line,
/// and the remote line (`-` alone, or `+` before the escaped URL).
pub open spec fn enc_record(r: RepoModel) -> Seq<char> {
    esc(r.path) + seq!['\n'] + seq![kind_char(r.vcs), '\n'] + (match r.remote {
        None => seq!['-', '\n'],
        Some(u) => seq!['+'] + esc(u) + seq!['\n'],
    })
}

/// Reads one record off the front of the text.
pub open spec fn parse_record(s: Seq<char>) -> Option<(RepoModel, Seq<char>)> {
    match read_line(s) {
        None => None,
        Some((path, s1)) => if s1.len() >= 2 && s1[1] == '\n' {
            match parse_kind(s1[0]) {
                None => None,
                Some(k) => {
                    let s2 = s1.skip(2);
                    if s2.len() >= 2 && s2[0] == '-' && s2[1] == '\n' {
                        Some((RepoModel { path, vcs: k, remote: None }, s2.skip(2)))
                    } else if s2.len() >= 1 && s2[0] == '+' {
                        match read_line(s2.drop_first()) {
                            None => None,
                            Some((u, s3)) => Some(
                                (RepoModel { path, vcs: k, remote: Some(u) }, s3),
                            ),
                        }
                    } else {
                        None
                    }
                },
            }
        } else {
            None
        },
    }
}

proof fn lemma_parse_record_consumes(s: Seq<char>)
    ensures
        match parse_record(s) {
            Some((r, rest)) => rest.len() < s.len(),
            None => true,
        },
{
    lemma_read_line_consumes(s);
    match read_line(s) {
        None => {},
        Some((path, s1)) => {
            if s1.len() >= 2 && s1[1] == '\n' && parse_kind(s1[0]) is Some {
                let s2 = s1.skip(2);
                lemma_read_line_consumes(s2.drop_first());
            }
        },
    }
}

/// Reading an encoded record returns it exactly and leaves the remainder.
proof fn lemma_parse_record_round(r: RepoModel, rest: Seq<char>)
    ensures
        parse_record(enc_record(r) + rest) == Some((r, rest)),
{
    let tail = seq![kind_char(r.vcs), '\n'] + (match r.remote {
        None => seq!['-', '\n'],
        Some(u) => seq!['+'] + esc(u) + seq!['\n'],
    }) + rest;
    assert(enc_record(r) + rest =~= esc(r.path) + seq!['\n'] + tail);
    lemma_read_line_round(r.path, tail);
    assert(tail.len() >= 2);
    assert(tail[0] == kind_char(r.vcs));
    assert(tail[1] == '\n');
    assert(parse_kind(kind_char(r.vcs)) == Some(r.vcs));
    let s2 = tail.skip(2);
    match r.remote {
        None => {
            assert(s2 =~= seq!['-', '\n'] + rest);
            assert(s2[0] == '-');
            assert(s2[1] == '\n');
            assert(s2.skip(2) =~= rest);
        },
        Some(u) => {
            assert(s2 =~= seq!['+'] + esc(u) + seq!['\n'] + rest);
            assert(s2[0] == '+');
            assert(s2[0] != '-' || s2.len() < 2 || s2[1] != '\n') by {
                assert(s2[0] == '+');
            }
            assert(s2.drop_first() =~= esc(u) + seq!['\n'] + rest);
            lemma_read_line_round(u, rest);
        },
    }
}

/// The encoded form of a catalog: its records, in order.
pub open spec fn encode_spec(rs: Seq<RepoModel>) -> Seq<char>
    decreases rs.len(),
{
    if rs.len() == 0 {
        Seq::empty()
    } else {
        enc_record(rs[0]) + encode_spec(rs.drop_first())
    }
}

proof fn lemma_encode_push(rs: Seq<RepoModel>, r: RepoModel)
    ensures
        encode_spec(rs.push(r)) == encode_spec(rs) + enc_record(r),
    decreases rs.len(),
{
    if rs.len() == 0 {
        assert(rs.push(r).len() == 1);
        assert(rs.push(r)[0] == r);
        assert(rs.push(r).drop_first() =~= Seq::<RepoModel>::empty());
        assert(encode_spec(rs.push(r)) == enc_record(r) + encode_spec(Seq::<RepoModel>::empty()));
        assert(enc_record(r) + Seq::<char>::empty() =~= enc_record(r));
        assert(encode_spec(rs) + enc_record(r) =~= enc_record(r));
    } else {
        lemma_encode_push(rs.drop_first(), r);
        assert(rs.push(r).drop_first() =~= rs.drop_first().push(r));
        assert(rs.push(r)[0] == rs[0]);
        assert(enc_record(rs[0]) + (encode_spec(rs.drop_first()) + enc_record(r)) =~= (enc_record(
            rs[0],
        ) + encode_spec(rs.drop_first())) + enc_record(r));
    }
}

/// Reads records until the text is exhausted; any malformed remainder
/// refuses the whole text.
pub open spec fn parse_records(s: Seq<char>) -> Option<Seq<RepoModel>>
    decreases s.len(),
    via parse_records_decreases
{
    if s.len() == 0 {
        Some(Seq::empty())
    } else {
        match parse_record(s) {
            None => None,
            Some((r, rest)) => match parse_records(rest) {
                None => None,
                Some(rs) => Some(seq![r] + rs),
            },
        }
    }
}

#[via_fn]
proof fn parse_records_decreases(s: Seq<char>) {
    lemma_parse_record_consumes(s);
}

/// Decoding an encoded catalog returns exactly its records, in order.
pub proof fn lemma_save_load_round_trip(rs: Seq<RepoModel>)
    ensures
        parse_records(encode_spec(rs)) == Some(rs),
    decreases rs.len(),
{
    if rs.len() == 0 {
    } else {
        lemma_save_load_round_trip(rs.drop_first());
        lemma_parse_record_round(rs[0], encode_spec(rs.drop_first()));
        let s = encode_spec(rs);
        assert(s.len() > 0) by {
            assert(enc_record(rs[0]).len() > 0);
        }
        assert(seq![rs[0]] + rs.drop_first() =~= rs);
    }
}

/// Relies on String::push: appends exactly the one character.
#[verifier::external_body]
fn push_char(s: &mut String, c: char)
    ensures
        final(s)@ == old(s)@.push(c),
{
    s.push(c);
}

/// Appends the escaped form of `field` to `out`.
fn append_escaped(out: &mut String, field: &str)
    ensures
        final(out)@ == old(out)@ + esc(field@),
{
    let n = field.unicode_len();
    let mut i: usize = 0;
    proof {
        assert(field@.take(0) =~= Seq::<char>::empty());
        assert(old(out)@ + esc(field@.take(0)) =~= old(out)@);
    }
    while i < n
        invariant
            i <= n,
            n == field@.len(),
            out@ == old(out)@ + esc(field@.take(i as int)),
        decreases n - i,
    {
        let c = field.get_char(i);
        if c == '\\' {
            push_char(out, '\\');
            push_char(out, '\\');
        } else if c == '\n' {
            push_char(out, '\\');
            push_char(out, 'n');
        } else {
            push_char(out, c);
        }
        proof {
            lemma_esc_push(field@.take(i as int), c);
            assert(field@.take(i as int).push(c) =~= field@.take(i as int + 1));
            assert(out@ =~= old(out)@ + esc(field@.take(i as int + 1)));
        }
        i += 1;
    }
    proof {
        assert(field@.take(n as int) =~= field@);
    }
}

fn kind_char_exec(k: VcsKind) -> (c: char)
    ensures
        c == kind_char(k),
{
    match k {
        VcsKind::Git => 'g',
        VcsKind::Mercurial => 'h',
        VcsKind::Darcs => 'd',
        VcsKind::Pijul => 'p',
    }
}

/// Encodes the catalog into its durable text form.
pub fn save(catalog: &RepositoryCatalog) -> (r: String)
    ensures
        r@ == encode_spec(catalog@),
{
    let repos = catalog.repositories();
    let ghost all = models(repos@);
    let mut out = String::new();
    let n = repos.len();
    let mut i: usize = 0;
    proof {
        assert(all.take(0) =~= Seq::<RepoModel>::empty());
        assert(out@ =~= encode_spec(all.take(0)));
    }
    while i < n
        invariant
            i <= n,
            n == repos@.len(),
            all == models(repos@),
            out@ == encode_spec(all.take(i as int)),
        decreases n - i,
    {
        let ghost before = out@;
        let repo = &repos[i];
        append_escaped(&mut out, repo.path.as_str());
        push_char(&mut out, '\n');
        push_char(&mut out, kind_char_exec(repo.vcs));
        push_char(&mut out, '\n');
        match &repo.remote {
            None => {
                push_char(&mut out, '-');
                push_char(&mut out, '\n');
            },
            Some(rem) => {
                push_char(&mut out, '+');
                append_escaped(&mut out, rem.url.as_str());
                push_char(&mut out, '\n');
            },
        }
        proof {
            assert(all[i as int] == repo@);
            assert(out@ =~= before + enc_record(all[i as int]));
            lemma_encode_push(all.take(i as int), all[i as int]);
            assert(all.take(i as int).push(all[i as int]) =~= all.take(i as int + 1));
        }
        i += 1;
    }
    proof {
        assert(all.take(n as int) =~= all);
    }
    out
}

/// Reads one escaped field starting at `pos`; returns the field and the
/// position after its line break.
fn read_line_exec(s: &str, pos: usize) -> (r: Option<(String, usize)>)
    requires
        pos <= s@.len(),
    ensures
        match r {
            None => read_line(s@.skip(pos as int)) is None,
            Some(t) => t.1 <= s@.len() && read_line(s@.skip(pos as int)) == Some(
                (t.0@, s@.skip(t.1 as int)),
            ),
        },
{
    let n = s.unicode_len();
    let mut out = String::new();
    let mut j = pos;
    proof {
        assert(out@ + Seq::<char>::empty() =~= out@);
    }
    while j < n
        invariant
            pos <= j <= n,
            n == s@.len(),
            match read_line(s@.skip(j as int)) {
                None => read_line(s@.skip(pos as int)) is None,
                Some((t, rest)) => read_line(s@.skip(pos as int)) == Some((out@ + t, rest)),
            },
        decreases n - j,
    {
        let c = s.get_char(j);
        proof {
            assert(s@.skip(j as int)[0] == s@[j as int]);
            assert(s@.skip(j as int).drop_first() =~= s@.skip(j as int + 1));
        }
        if c == '\n' {
            proof {
                assert(read_line(s@.skip(j as int)) == Some(
                    (Seq::<char>::empty(), s@.skip(j as int + 1)),
                ));
                assert(out@ + Seq::<char>::empty() =~= out@);
            }
            return Some((out, j + 1));
        } else if c == '\\' {
            if j + 1 >= n {
                proof {
                    assert(s@.skip(j as int).len() < 2);
                }
                return None;
            }
            let c2 = s.get_char(j + 1);
            proof {
                assert(s@.skip(j as int)[1] == s@[j as int + 1]);
                assert(s@.skip(j as int).skip(2) =~= s@.skip(j as int + 2));
            }
            if c2 == '\\' {
                push_char(&mut out, '\\');
                proof {
                    match read_line(s@.skip(j as int + 2)) {
                        None => {},
                        Some((t, rest)) => {
                            assert(out@ + t =~= (out@.drop_last() + seq!['\\']) + t);
                            assert(out@.drop_last() + (seq!['\\'] + t) =~= (out@.drop_last()
                                + seq!['\\']) + t);
                        },
                    }
                }
                j += 2;
            } else if c2 == 'n' {
                push_char(&mut out, '\n');
                proof {
                    match read_line(s@.skip(j as int + 2)) {
                        None => {},
                        Some((t, rest)) => {
                            assert(out@ + t =~= (out@.drop_last() + seq!['\n']) + t);
                            assert(out@.drop_last() + (seq!['\n'] + t) =~= (out@.drop_last()
                                + seq!['\n']) + t);
                        },
                    }
                }
                j += 2;
            } else {
                return None;
            }
        } else {
            push_char(&mut out, c);
            proof {
                match read_line(s@.skip(j as int + 1)) {
                    None => {},
                    Some((t, rest)) => {
                        assert(out@.drop_last() + (seq![c] + t) =~= (out@.drop_last() + seq![c])
                            + t);
                        assert(out@ =~= out@.drop_last() + seq![c]);
                    },
                }
            }
            j += 1;
        }
    }
    proof {
        assert(s@.skip(j as int).len() == 0);
    }
    None
}

/// Reads one record starting at `pos`.
fn parse_record_exec(s: &str, pos: usize) -> (r: Option<(Repository, usize)>)
    requires
        pos <= s@.len(),
    ensures
        match r {
            None => parse_record(s@.skip(pos as int)) is None,
            Some(t) => t.1 <= s@.len() && parse_record(s@.skip(pos as int)) == Some(
                (t.0@, s@.skip(t.1 as int)),
            ),
        },
{
    let n = s.unicode_len();
    let (path, p1) = match read_line_exec(s, pos) {
        Some(t) => t,
        None => {
            return None;
        },
    };
    proof {
        // The spec reads the same field, then looks at the two kind-line
        // characters inside the remainder.
        assert(s@.skip(p1 as int).len() >= 2 ==> s@.skip(p1 as int)[0] == s@[p1 as int]
            && s@.skip(p1 as int)[1] == s@[p1 as int + 1]);
    }
    if n - p1 < 2 {
        return None;
    }
    let kc = s.get_char(p1);
    let k = if kc == 'g' {
        VcsKind::Git
    } else if kc == 'h' {
        VcsKind::Mercurial
    } else if kc == 'd' {
        VcsKind::Darcs
    } else if kc == 'p' {
        VcsKind::Pijul
    } else {
        return None;
    };
    if s.get_char(p1 + 1) != '\n' {
        return None;
    }
    let p2 = p1 + 2;
    proof {
        assert(s@.skip(p1 as int).skip(2) =~= s@.skip(p2 as int));
    }
    if p2 >= n {
        proof {
            assert(s@.skip(p2 as int).len() == 0);
        }
        return None;
    }
    let c0 = s.get_char(p2);
    proof {
        assert(s@.skip(p2 as int)[0] == s@[p2 as int]);
    }
    if c0 == '-' {
        if p2 + 1 >= n || s.get_char(p2 + 1) != '\n' {
            proof {
                if p2 + 1 < n {
                    assert(s@.skip(p2 as int)[1] == s@[p2 as int + 1]);
                }
            }
            return None;
        }
        proof {
            assert(s@.skip(p2 as int)[1] == s@[p2 as int + 1]);
            assert(s@.skip(p2 as int).skip(2) =~= s@.skip(p2 as int + 2));
        }
        Some((Repository::new(path, k, None), p2 + 2))
    } else if c0 == '+' {
        proof {
            assert(s@.skip(p2 as int).drop_first() =~= s@.skip(p2 as int + 1));
        }
        match read_line_exec(s, p2 + 1) {
            None => None,
            Some((url, p3)) => Some((Repository::new(path, k, Some(Remote::new(url))), p3)),
        }
    } else {
        None
    }
}

/// Decodes a cache text. Returns the records it encodes, in order, and
/// `CacheCorrupt` exactly on texts that encode no catalog.
pub fn load(text: &str) -> (r: Result<RepositoryCatalog, Error>)
    ensures
        match r {
            Ok(c) => parse_records(text@) == Some(c@),
            Err(e) => parse_records(text@) is None && e == Error::CacheCorrupt,
        },
{
    let n = text.unicode_len();
    let mut acc: Vec<Repository> = Vec::new();
    let mut pos: usize = 0;
    proof {
        assert(text@.skip(0) =~= text@);
        assert(models(acc@) =~= Seq::<RepoModel>::empty());
        match parse_records(text@) {
            Some(tail) => {
                assert(models(acc@) + tail =~= tail);
            },
            None => {},
        }
    }
    while pos < n
        invariant
            pos <= n,
            n == text@.len(),
            match parse_records(text@.skip(pos as int)) {
                None => parse_records(text@) is None,
                Some(tail) => parse_records(text@) == Some(models(acc@) + tail),
            },
        decreases n - pos,
    {
        match parse_record_exec(text, pos) {
            None => {
                proof {
                    assert(text@.skip(pos as int).len() > 0);
                    assert(parse_records(text@.skip(pos as int)) is None);
                }
                return Err(Error::CacheCorrupt);
            },
            Some((repo, np)) => {
                proof {
                    lemma_parse_record_consumes(text@.skip(pos as int));
                }
                let ghost old_acc = acc@;
                acc.push(repo);
                proof {
                    assert(models(acc@) =~= models(old_acc).push(repo@));
                    match parse_records(text@.skip(np as int)) {
                        None => {},
                        Some(tail) => {
                            assert(models(old_acc) + (seq![repo@] + tail) =~= models(acc@) + tail);
                        },
                    }
                }
                pos = np;
            },
        }
    }
    proof {
        assert(text@.skip(pos as int).len() == 0);
        assert(parse_records(text@.skip(pos as int)) == Some(Seq::<RepoModel>::empty()));
        assert(models(acc@) + Seq::<RepoModel>::empty() =~= models(acc@));
    }
    Ok(RepositoryCatalog::from_entries(acc))
}

} // verus!
