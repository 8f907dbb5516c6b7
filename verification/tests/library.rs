use rhq::cache::{load, save};
use rhq::catalog::{AddOutcome, RepositoryCatalog};
use rhq::commands::{join_str, ForeachCommand, ListCommand, ListFormat, RepoAction};
use rhq::matcher::ExcludeMatcher;
use rhq::query::Query;
use rhq::repository::{str_eq, str_le, Remote, Repository, VcsKind};
use rhq::scanner::{collect_repositories, ScanEntry};
use rhq::workspace::{Config, Workspace};
use rhq::Error;

fn repo(path: &str, vcs: VcsKind, remote: Option<&str>) -> Repository {
    Repository::new(
        String::from(path),
        vcs,
        remote.map(|u| Remote::new(String::from(u))),
    )
}

fn same_repo(a: &Repository, b: &Repository) -> bool {
    let remotes_equal = match (&a.remote, &b.remote) {
        (Some(x), Some(y)) => x.url == y.url,
        (None, None) => true,
        _ => false,
    };
    a.path == b.path && a.vcs == b.vcs && remotes_equal
}

#[test]
fn add_twice_same_path_keeps_one_entry() {
    let mut catalog = RepositoryCatalog::new();
    let first = repo("/w/a", VcsKind::Git, Some("https://example.com/a"));
    let second = repo("/w/a", VcsKind::Mercurial, Some("https://example.com/b"));
    assert!(matches!(catalog.add(first), AddOutcome::Added));
    assert!(matches!(catalog.add(second), AddOutcome::Overwrote));
    let repos = catalog.repositories();
    assert_eq!(repos.len(), 1);
    assert_eq!(repos[0].path, "/w/a");
    assert_eq!(repos[0].vcs, VcsKind::Mercurial);
    assert_eq!(repos[0].remote.as_ref().unwrap().url, "https://example.com/b");
}

#[test]
fn add_distinct_paths_appends_in_order() {
    let mut catalog = RepositoryCatalog::new();
    catalog.add(repo("/w/b", VcsKind::Git, None));
    catalog.add(repo("/w/a", VcsKind::Git, None));
    let repos = catalog.repositories();
    assert_eq!(repos.len(), 2);
    assert_eq!(repos[0].path, "/w/b");
    assert_eq!(repos[1].path, "/w/a");
}

#[test]
fn save_then_load_returns_the_catalog() {
    let mut catalog = RepositoryCatalog::new();
    catalog.add(repo("/w/a", VcsKind::Git, Some("https://example.com/a")));
    catalog.add(repo("/w/b", VcsKind::Darcs, None));
    catalog.add(repo("/w/c", VcsKind::Pijul, Some("ssh://c")));
    let text = save(&catalog);
    let loaded = load(text.as_str()).expect("encoded catalog must load");
    let orig = catalog.repositories();
    let back = loaded.repositories();
    assert_eq!(orig.len(), back.len());
    for i in 0..orig.len() {
        assert!(same_repo(&orig[i], &back[i]));
    }
}

#[test]
fn save_then_load_round_trips_escaped_characters() {
    let mut catalog = RepositoryCatalog::new();
    catalog.add(repo("/w/odd\\name\nwith breaks", VcsKind::Mercurial, Some("url\\with\nbreaks")));
    let text = save(&catalog);
    let loaded = load(text.as_str()).expect("escaped fields must round-trip");
    let back = loaded.repositories();
    assert_eq!(back.len(), 1);
    assert_eq!(back[0].path, "/w/odd\\name\nwith breaks");
    assert_eq!(back[0].remote.as_ref().unwrap().url, "url\\with\nbreaks");
}

#[test]
fn save_emits_the_documented_text() {
    let mut catalog = RepositoryCatalog::new();
    catalog.add(repo("/w/a", VcsKind::Git, Some("https://example.com/a")));
    catalog.add(repo("/w/b", VcsKind::Darcs, None));
    let text = save(&catalog);
    assert_eq!(text, "/w/a\ng\n+https://example.com/a\n/w/b\nd\n-\n");
}

#[test]
fn load_refuses_malformed_text() {
    for text in [
        "no trailing line break",
        "/w/a\nz\n-\n",
        "/w/a\ng\n?\n",
        "/w/a\nbad\\escape\\q\n",
    ] {
        match load(text) {
            Err(e) => assert_eq!(e, Error::CacheCorrupt),
            Ok(_) => panic!("malformed text must be refused"),
        }
    }
}

#[test]
fn load_of_empty_text_is_the_empty_catalog() {
    let loaded = load("").expect("empty text is an empty catalog");
    assert_eq!(loaded.repositories().len(), 0);
}

#[test]
fn parse_without_host_defaults_to_github() {
    let q = Query::parse("user/repo").expect("plain query must parse");
    assert!(q.host.is_none());
    assert_eq!(q.path, "user/repo");
    let resolved = q.resolve("/w");
    assert_eq!(resolved, "/w/github.com/user/repo");
    assert_eq!(q.to_url(false), "https://github.com/user/repo");
    assert_eq!(q.to_url(true), "git@github.com:user/repo");
}

#[test]
fn parse_with_host_keeps_it() {
    let q = Query::parse("gitlab.com/user/repo").expect("hosted query must parse");
    assert_eq!(q.host.as_deref(), Some("gitlab.com"));
    assert_eq!(q.path, "user/repo");
    assert_eq!(q.to_url(false), "https://gitlab.com/user/repo");
    assert_eq!(q.to_url(true), "git@gitlab.com:user/repo");
}

#[test]
fn parse_full_url_extracts_host_and_path() {
    let q = Query::parse("https://gitlab.com/user/repo").expect("URL must parse");
    assert_eq!(q.host.as_deref(), Some("gitlab.com"));
    assert_eq!(q.path, "user/repo");
}

#[test]
fn parse_refuses_malformed_queries() {
    assert!(Query::parse("").is_err());
    assert!(Query::parse("/leading").is_err());
    assert!(Query::parse("trailing/").is_err());
    assert!(Query::parse("doubled//segment").is_err());
    assert!(Query::parse("git@host:path").is_err());
    assert!(Query::parse("https://hostonly").is_err());
}

#[test]
fn single_segment_is_a_plain_path() {
    let q = Query::parse("repo").expect("one segment must parse");
    assert!(q.host.is_none());
    assert_eq!(q.path, "repo");
}

#[test]
fn refresh_drops_missing_entries_and_keeps_order() {
    let mut catalog = RepositoryCatalog::new();
    catalog.add(repo("/w/a", VcsKind::Git, None));
    catalog.add(repo("/w/b", VcsKind::Git, None));
    catalog.add(repo("/w/c", VcsKind::Git, None));
    let config = Config::new(None, Vec::new(), &Vec::new()).unwrap();
    let mut ws = Workspace::new(config, catalog);
    // `/w/b` vanished from disk; the two others were probed again.
    let refreshed = vec![
        Some(repo("/w/a", VcsKind::Git, None)),
        None,
        Some(repo("/w/c", VcsKind::Git, None)),
    ];
    let dropped = ws.drop_invalid_repositories(&refreshed);
    let repos = ws.repositories();
    assert_eq!(repos.len(), 2);
    assert_eq!(repos[0].path, "/w/a");
    assert_eq!(repos[1].path, "/w/c");
    assert_eq!(dropped, vec![String::from("/w/b")]);
}

#[test]
fn refresh_drops_entries_matching_a_new_exclusion() {
    let mut catalog = RepositoryCatalog::new();
    catalog.add(repo("/w/keep", VcsKind::Git, None));
    catalog.add(repo("/w/skip", VcsKind::Git, None));
    let patterns = vec![String::from("/w/skip")];
    let config = Config::new(None, Vec::new(), &patterns).unwrap();
    let mut ws = Workspace::new(config, catalog);
    let refreshed = vec![
        Some(repo("/w/keep", VcsKind::Git, None)),
        Some(repo("/w/skip", VcsKind::Git, None)),
    ];
    let dropped = ws.drop_invalid_repositories(&refreshed);
    let repos = ws.repositories();
    assert_eq!(repos.len(), 1);
    assert_eq!(repos[0].path, "/w/keep");
    assert_eq!(dropped, vec![String::from("/w/skip")]);
}

#[test]
fn sort_orders_by_display_name_and_is_stable() {
    let mut catalog = RepositoryCatalog::new();
    catalog.add(repo("/w/zeta", VcsKind::Git, None));
    catalog.add(repo("/x/dup", VcsKind::Git, Some("first")));
    catalog.add(repo("/w/alpha", VcsKind::Git, None));
    catalog.add(repo("/y/dup", VcsKind::Git, Some("second")));
    catalog.sort();
    let repos = catalog.repositories();
    assert_eq!(repos.len(), 4);
    assert_eq!(repos[0].path, "/w/alpha");
    // The two entries named `dup` keep their relative order.
    assert_eq!(repos[1].path, "/x/dup");
    assert_eq!(repos[2].path, "/y/dup");
    assert_eq!(repos[3].path, "/w/zeta");
}

#[test]
fn repository_name_is_the_final_segment() {
    let r = repo("/w/group/project", VcsKind::Git, None);
    assert_eq!(r.name(), "project");
    let bare = repo("project", VcsKind::Git, None);
    assert_eq!(bare.name(), "project");
}

#[test]
fn vcs_markers_and_commands() {
    assert_eq!(VcsKind::Git.marker(), ".git");
    assert_eq!(VcsKind::Mercurial.marker(), ".hg");
    assert_eq!(VcsKind::Darcs.marker(), "_darcs");
    assert_eq!(VcsKind::Pijul.marker(), ".pijul");
    assert_eq!(VcsKind::Git.command(), "git");
    assert_eq!(VcsKind::Mercurial.command(), "hg");
    assert_eq!(VcsKind::Darcs.command(), "darcs");
    assert_eq!(VcsKind::Pijul.command(), "pijul");
}

#[test]
fn string_order_helpers() {
    assert!(str_le("alpha", "beta"));
    assert!(!str_le("beta", "alpha"));
    assert!(str_le("abc", "abcd"));
    assert!(str_le("same", "same"));
    assert!(str_eq("same", "same"));
    assert!(!str_eq("same", "other"));
}

fn entry(path: &str, parent: Option<usize>, canon: Option<&str>, is_repo: bool) -> ScanEntry {
    ScanEntry {
        path: String::from(path),
        parent,
        canon: canon.map(String::from),
        is_repo,
    }
}

#[test]
fn scan_does_not_descend_past_a_repository() {
    let excludes = ExcludeMatcher::none();
    let entries = vec![
        entry("/w", None, Some("/w"), false),
        entry("/w/outer", Some(0), Some("/w/outer"), true),
        entry("/w/outer/vendor", Some(1), Some("/w/outer/vendor"), false),
        entry("/w/outer/vendor/inner", Some(2), Some("/w/outer/vendor/inner"), true),
        entry("/w/plain", Some(0), Some("/w/plain"), true),
    ];
    let found = collect_repositories(&entries, &excludes);
    assert_eq!(found, vec![String::from("/w/outer"), String::from("/w/plain")]);
}

#[test]
fn scan_prunes_excluded_directories_but_never_the_root() {
    let patterns = vec![String::from("/w/skip*")];
    let matcher = ExcludeMatcher::new(&patterns).unwrap();
    let entries = vec![
        entry("/w", None, Some("/w"), false),
        entry("/w/skipme", Some(0), Some("/w/skipme"), true),
        entry("/w/skipme/sub", Some(1), Some("/w/skipme/sub"), true),
        entry("/w/keep", Some(0), Some("/w/keep"), true),
    ];
    let found = collect_repositories(&entries, &matcher);
    assert_eq!(found, vec![String::from("/w/keep")]);

    // The scan root itself is never excluded, even when a pattern
    // matches it.
    let root_pattern = vec![String::from("/w")];
    let matcher = ExcludeMatcher::new(&root_pattern).unwrap();
    let entries = vec![entry("/w", None, Some("/w"), true)];
    let found = collect_repositories(&entries, &matcher);
    assert_eq!(found, vec![String::from("/w")]);
}

#[test]
fn scan_skips_entries_without_a_canonical_path() {
    let excludes = ExcludeMatcher::none();
    let entries = vec![
        entry("/w", None, Some("/w"), false),
        entry("/w/gone", Some(0), None, true),
        entry("/w/here", Some(0), Some("/w/here"), true),
    ];
    let found = collect_repositories(&entries, &excludes);
    assert_eq!(found, vec![String::from("/w/here")]);
}

#[test]
fn scan_normalizes_verbatim_prefixes_before_matching() {
    let patterns = vec![String::from("/w/skip")];
    let matcher = ExcludeMatcher::new(&patterns).unwrap();
    let entries = vec![
        entry("/w", None, Some("/w"), false),
        entry("/w/skip", Some(0), Some("\\\\?\\/w/skip"), true),
    ];
    let found = collect_repositories(&entries, &matcher);
    assert_eq!(found.len(), 0);
}

#[test]
fn exclude_matcher_follows_glob_semantics() {
    let patterns = vec![String::from("/w/b*")];
    let matcher = ExcludeMatcher::new(&patterns).unwrap();
    assert!(matcher.matches("/w/bar"));
    assert!(!matcher.matches("/w/car"));
    // Under the default match options `*` crosses separators too.
    assert!(matcher.matches("/w/bar/sub"));
}

#[test]
fn invalid_exclude_pattern_is_a_config_error() {
    let patterns = vec![String::from("[")];
    match ExcludeMatcher::new(&patterns) {
        Err(e) => assert_eq!(e, Error::ConfigError),
        Ok(_) => panic!("an unclosed character class must be refused"),
    }
}

#[test]
fn resolve_query_prefers_the_explicit_root() {
    let config = Config::new(Some(String::from("/configured")), Vec::new(), &Vec::new()).unwrap();
    let ws = Workspace::new(config, RepositoryCatalog::new());
    let q = Query::parse("user/repo").unwrap();
    assert_eq!(ws.resolve_query(&q).unwrap(), "/configured/github.com/user/repo");
    let ws = ws.root_dir(Some(String::from("/explicit")));
    assert_eq!(ws.resolve_query(&q).unwrap(), "/explicit/github.com/user/repo");
}

#[test]
fn resolve_query_without_any_root_fails() {
    let config = Config::new(None, Vec::new(), &Vec::new()).unwrap();
    let ws = Workspace::new(config, RepositoryCatalog::new());
    let q = Query::parse("user/repo").unwrap();
    assert_eq!(ws.resolve_query(&q), Err(Error::NoRootConfigured));
}

#[test]
fn new_repository_needs_a_kind() {
    let config = Config::new(None, Vec::new(), &Vec::new()).unwrap();
    let ws = Workspace::new(config, RepositoryCatalog::new());
    let path = String::from("/w/a");
    assert!(ws.new_repository_from_path(&path, None, Some(String::from("u"))).is_none());
    let r = ws
        .new_repository_from_path(&path, Some(VcsKind::Git), Some(String::from("u")))
        .expect("a detected kind makes a record");
    assert_eq!(r.path, "/w/a");
    assert_eq!(r.vcs, VcsKind::Git);
    assert_eq!(r.remote.as_ref().unwrap().url, "u");
}

#[test]
fn new_repository_without_a_remote_is_purely_local() {
    let config = Config::new(None, Vec::new(), &Vec::new()).unwrap();
    let ws = Workspace::new(config, RepositoryCatalog::new());
    let path = String::from("/w/local");
    let r = ws
        .new_repository_from_path(&path, Some(VcsKind::Darcs), None)
        .expect("an absent remote is a valid probe outcome");
    assert_eq!(r.path, "/w/local");
    assert_eq!(r.vcs, VcsKind::Darcs);
    assert!(r.remote.is_none());
}

#[test]
fn import_adds_each_discovered_repository() {
    let config = Config::new(None, Vec::new(), &Vec::new()).unwrap();
    let mut ws = Workspace::new(config, RepositoryCatalog::new());
    ws.import_repositories(vec![
        repo("/w/a", VcsKind::Git, Some("ra")),
        repo("/w/b", VcsKind::Git, Some("rb")),
        repo("/w/a", VcsKind::Git, Some("ra2")),
    ]);
    let repos = ws.repositories();
    assert_eq!(repos.len(), 2);
    assert_eq!(repos[0].remote.as_ref().unwrap().url, "ra2");
    assert_eq!(repos[1].path, "/w/b");
}

#[test]
fn list_command_prints_names_or_paths() {
    let repos = vec![
        repo("/w/group/a", VcsKind::Git, None),
        repo("/w/b", VcsKind::Git, None),
    ];
    let by_name = ListCommand::new(ListFormat::Name).run(&repos);
    assert_eq!(by_name, vec![String::from("a"), String::from("b")]);
    let by_path = ListCommand::new(ListFormat::FullPath).run(&repos);
    assert_eq!(by_path, vec![String::from("/w/group/a"), String::from("/w/b")]);
}

#[test]
fn list_format_names() {
    assert_eq!(ListFormat::from_name("name"), Some(ListFormat::Name));
    assert_eq!(ListFormat::from_name("fullpath"), Some(ListFormat::FullPath));
    assert_eq!(ListFormat::from_name("other"), None);
}

#[test]
fn foreach_command_builds_one_action_per_repository() {
    let repos = vec![repo("/w/a", VcsKind::Git, None), repo("/w/b", VcsKind::Git, None)];
    let command = ForeachCommand::new(
        String::from("git"),
        vec![String::from("status"), String::from("-s")],
        false,
    );
    let actions = command.run(&repos);
    assert_eq!(actions.len(), 2);
    match &actions[0] {
        RepoAction::Execute { dir, command, args } => {
            assert_eq!(dir, "/w/a");
            assert_eq!(command, "git");
            assert_eq!(args, &vec![String::from("status"), String::from("-s")]);
        }
        RepoAction::Print(_) => panic!("a live run launches commands"),
    }
}

#[test]
fn foreach_dry_run_prints_the_command_line() {
    let repos = vec![repo("/w/a", VcsKind::Git, None)];
    let command = ForeachCommand::new(String::from("git"), vec![String::from("pull")], true);
    let actions = command.run(&repos);
    assert_eq!(actions.len(), 1);
    match &actions[0] {
        RepoAction::Print(line) => assert_eq!(line, "+ git pull"),
        RepoAction::Execute { .. } => panic!("a dry run only prints"),
    }
}

#[test]
fn join_str_separates_with_single_spaces() {
    assert_eq!(join_str(&Vec::new()), "");
    assert_eq!(join_str(&vec![String::from("one")]), "one");
    assert_eq!(join_str(&vec![String::from("a"), String::from("b"), String::from("c")]), "a b c");
}

#[test]
fn error_messages_name_the_failure() {
    assert!(Error::ConfigError.message().contains("pattern"));
    assert!(Error::CacheCorrupt.message().contains("cache"));
    assert!(Error::NoRootConfigured.message().contains("root"));
    assert!(Error::ParseError.message().contains("query"));
}
