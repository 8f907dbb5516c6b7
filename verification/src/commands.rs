//! The decisions of the listing and batch commands: what line each catalog
//! entry prints, and what action runs in each repository. The surrounding
//! process performs the printing and the launching.

use vstd::prelude::*;

use crate::catalog::models;
use crate::repository::{name_of, str_eq, RepoModel, Repository};

verus! {

/// Joins strings with single spaces, as a command line is displayed.
pub open spec fn join_spec(parts: Seq<Seq<char>>) -> Seq<char>
    decreases parts.len(),
{
    if parts.len() == 0 {
        Seq::empty()
    } else if parts.len() == 1 {
        parts[0]
    } else {
        join_spec(parts.drop_last()) + " "@ + parts.last()
    }
}

/// The views of a vector of strings.
pub open spec fn string_views(s: Seq<String>) -> Seq<Seq<char>> {
    s.map_values(|p: String| p@)
}

/// Joins the strings with single spaces.
pub fn join_str(parts: &Vec<String>) -> (r: String)
    ensures
        r@ == join_spec(string_views(parts@)),
{
    let ghost views = string_views(parts@);
    let mut out = String::new();
    let n = parts.len();
    let mut i: usize = 0;
    proof {
        assert(views.take(0) =~= Seq::<Seq<char>>::empty());
        assert(out@ =~= join_spec(views.take(0)));
    }
    while i < n
        invariant
            i <= n,
            n == parts@.len(),
            views == string_views(parts@),
            out@ == join_spec(views.take(i as int)),
        decreases n - i,
    {
        if i > 0 {
            out.append(" ");
        }
        out.append(parts[i].as_str());
        proof {
            assert(views.take(i as int + 1).drop_last() =~= views.take(i as int));
            assert(views.take(i as int + 1).last() == views[i as int]);
            if i == 0 {
                assert(out@ =~= join_spec(views.take(1)));
            } else {
                assert(out@ =~= join_spec(views.take(i as int + 1)));
            }
        }
        i += 1;
    }
    proof {
        assert(views.take(n as int) =~= views);
    }
    out
}

/// How the listing prints an entry: its display name, or its full path.
#[derive(Clone, Copy, PartialEq, Eq, Structural, Debug)]
pub enum ListFormat {
    Name,
    FullPath,
}

impl ListFormat {
    /// The format a command-line value names, if any.
    pub fn from_name(s: &str) -> (r: Option<ListFormat>)
        ensures
            s@ == "name"@ ==> r == Some(ListFormat::Name),
            s@ == "fullpath"@ ==> r == Some(ListFormat::FullPath),
            s@ != "name"@ && s@ != "fullpath"@ ==> r is None,
    {
        proof {
            reveal_strlit("name");
            reveal_strlit("fullpath");
            assert("name"@.len() == 4);
            assert("fullpath"@.len() == 8);
        }
        if str_eq(s, "name") {
            Some(ListFormat::Name)
        } else if str_eq(s, "fullpath") {
            Some(ListFormat::FullPath)
        } else {
            None
        }
    }
}

/// The line the listing prints for one entry.
pub open spec fn list_line(m: RepoModel, format: ListFormat) -> Seq<char> {
    match format {
        ListFormat::Name => name_of(m.path),
        ListFormat::FullPath => m.path,
    }
}

/// The listing command: prints one line per catalog entry.
pub struct ListCommand {
    pub format: ListFormat,
}

impl ListCommand {
    pub fn new(format: ListFormat) -> (r: ListCommand)
        ensures
            r.format == format,
    {
        ListCommand { format }
    }

    /// The lines to print, one per entry, in catalog order.
    pub fn run(&self, repos: &Vec<Repository>) -> (r: Vec<String>)
        ensures
            r@.len() == repos@.len(),
            forall|i: int|
                0 <= i < r@.len() ==> (#[trigger] r@[i])@ == list_line(
                    models(repos@)[i],
                    self.format,
                ),
    {
        let mut out: Vec<String> = Vec::new();
        let n = repos.len();
        let mut i: usize = 0;
        while i < n
            invariant
                i <= n,
                n == repos@.len(),
                out@.len() == i,
                forall|k: int|
                    0 <= k < i ==> (#[trigger] out@[k])@ == list_line(
                        models(repos@)[k],
                        self.format,
                    ),
            decreases n - i,
        {
            let line = match self.format {
                ListFormat::Name => repos[i].name(),
                ListFormat::FullPath => repos[i].path_string(),
            };
            out.push(line);
            i += 1;
        }
        out
    }
}

/// One step of a batch run: a line to print, or a command to launch inside
/// a repository.
pub enum RepoAction {
    Print(String),
    Execute { dir: String, command: String, args: Vec<String> },
}

/// The display line of a dry run over one repository.
pub open spec fn dry_run_line(command: Seq<char>, args: Seq<Seq<char>>) -> Seq<char> {
    "+ "@ + command + " "@ + join_spec(args)
}

/// What the batch command does at one entry.
pub open spec fn foreach_action(
    m: RepoModel,
    command: Seq<char>,
    args: Seq<Seq<char>>,
    dry_run: bool,
    a: RepoAction,
) -> bool {
    match a {
        RepoAction::Print(line) => dry_run && line@ == dry_run_line(command, args),
        RepoAction::Execute { dir, command: c, args: a2 } => !dry_run && dir@ == m.path && c@
            == command && string_views(a2@) == args,
    }
}

/// Clones a vector of strings.
fn clone_strings(v: &Vec<String>) -> (r: Vec<String>)
    ensures
        r@ == v@,
{
    let mut out: Vec<String> = Vec::new();
    let n = v.len();
    let mut i: usize = 0;
    while i < n
        invariant
            i <= n,
            n == v@.len(),
            out@ == v@.take(i as int),
        decreases n - i,
    {
        out.push(v[i].clone());
        proof {
            assert(out@ =~= v@.take(i as int + 1));
        }
        i += 1;
    }
    proof {
        assert(v@.take(n as int) =~= v@);
    }
    out
}

/// The batch command: one action per catalog entry, a printed line under a
/// dry run, a launch inside the repository otherwise.
pub struct ForeachCommand {
    pub command: String,
    pub args: Vec<String>,
    pub dry_run: bool,
}

impl ForeachCommand {
    pub fn new(command: String, args: Vec<String>, dry_run: bool) -> (r: ForeachCommand)
        ensures
            r.command == command,
            r.args == args,
            r.dry_run == dry_run,
    {
        ForeachCommand { command, args, dry_run }
    }

    /// The actions to perform, one per entry, in catalog order.
    pub fn run(&self, repos: &Vec<Repository>) -> (r: Vec<RepoAction>)
        ensures
            r@.len() == repos@.len(),
            forall|i: int|
                0 <= i < r@.len() ==> foreach_action(
                    models(repos@)[i],
                    self.command@,
                    string_views(self.args@),
                    self.dry_run,
                    #[trigger] r@[i],
                ),
    {
        let mut out: Vec<RepoAction> = Vec::new();
        let n = repos.len();
        let mut i: usize = 0;
        while i < n
            invariant
                i <= n,
                n == repos@.len(),
                out@.len() == i,
                forall|k: int|
                    0 <= k < i ==> foreach_action(
                        models(repos@)[k],
                        self.command@,
                        string_views(self.args@),
                        self.dry_run,
                        #[trigger] out@[k],
                    ),
            decreases n - i,
        {
            if self.dry_run {
                let mut line = String::new();
                line.append("+ ");
                line.append(self.command.as_str());
                line.append(" ");
                let joined = join_str(&self.args);
                line.append(joined.as_str());
                proof {
                    assert(line@ =~= dry_run_line(self.command@, string_views(self.args@)));
                }
                out.push(RepoAction::Print(line));
            } else {
                out.push(
                    RepoAction::Execute {
                        dir: repos[i].path_string(),
                        command: self.command.clone(),
                        args: clone_strings(&self.args),
                    },
                );
            }
            i += 1;
        }
        out
    }
}

} // verus!
