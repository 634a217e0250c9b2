use gam::aliases::{parse_alias_output, sort_aliases, GitAlias, GitService};

fn alias(name: &str, command: &str, scope: &str) -> GitAlias {
    GitAlias {
        name: name.to_string(),
        command: command.to_string(),
        scope: scope.to_string(),
        local_path: None,
        score: None,
    }
}

#[test]
fn parses_key_value_lines() {
    let out = "alias.co checkout\nalias.st status -sb\n\nplain value here\n";
    let r = parse_alias_output(out, "global", &None);
    assert_eq!(r.len(), 3);
    assert_eq!(r[0].name, "co");
    assert_eq!(r[0].command, "checkout");
    assert_eq!(r[0].scope, "global");
    assert_eq!(r[0].local_path, None);
    assert_eq!(r[1].name, "st");
    assert_eq!(r[1].command, "status -sb");
    // a key without the alias. prefix keeps its text
    assert_eq!(r[2].name, "plain");
    assert_eq!(r[2].command, "value here");
}

#[test]
fn parse_keeps_local_source_path() {
    let lp = Some("/tmp/repo".to_string());
    let r = parse_alias_output("alias.lg log --graph", "local", &lp);
    assert_eq!(r.len(), 1);
    assert_eq!(r[0].scope, "local");
    assert_eq!(r[0].local_path.as_deref(), Some("/tmp/repo"));
}

#[test]
fn sorts_case_insensitively_and_stably() {
    let list = vec![
        alias("Zulu", "log", "global"),
        alias("apple", "status", "global"),
        alias("APPLE", "diff", "global"),
        alias("banana", "fetch", "global"),
    ];
    let r = sort_aliases(list);
    let names: Vec<&str> = r.iter().map(|a| a.name.as_str()).collect();
    // "apple" and "APPLE" share a key and keep their arrival order
    assert_eq!(names, vec!["apple", "APPLE", "banana", "Zulu"]);
}

#[test]
fn discovery_is_sorted_and_repeatable() {
    let mut svc = GitService::new();
    let global = "alias.st status\nalias.CO checkout\n";
    let locals = vec![(
        "/tmp/repo".to_string(),
        Some("alias.br branch\n".to_string()),
    )];
    let first = svc.get_aliases(Some(global), &locals, 1000);
    let names: Vec<&str> = first.iter().map(|a| a.name.as_str()).collect();
    assert_eq!(names, vec!["br", "CO", "st"]);
    assert!(first.iter().all(|a| a.score == Some(0)));
    let again = svc.get_aliases(Some(global), &locals, 1000);
    let names2: Vec<&str> = again.iter().map(|a| a.name.as_str()).collect();
    assert_eq!(names, names2);
}

#[test]
fn failed_slots_are_skipped_not_fatal() {
    let mut svc = GitService::new();
    let locals = vec![
        ("/gone".to_string(), None),
        ("/tmp/repo".to_string(), Some("alias.lg log\n".to_string())),
    ];
    let r = svc.get_aliases(None, &locals, 1000);
    assert_eq!(r.len(), 1);
    assert_eq!(r[0].name, "lg");
    assert_eq!(r[0].local_path.as_deref(), Some("/tmp/repo"));
}

#[test]
fn interpret_distinguishes_failures() {
    let not_installed = GitService::interpret_git_output(true, false, None, "", "", false);
    assert_eq!(not_installed.unwrap_err(), "Git is not installed or not found in PATH");

    let ok = GitService::interpret_git_output(false, true, Some(0), "  out  \n", "", false);
    assert_eq!(ok.unwrap(), "out");

    // trimming strips Unicode white space, as str::trim does
    let uni = GitService::interpret_git_output(false, true, Some(0), "\u{a0}x\u{a0}", "", false);
    assert_eq!(uni.unwrap(), "x");

    let no_aliases = GitService::interpret_git_output(false, false, Some(1), "", "boom", true);
    assert_eq!(no_aliases.unwrap(), "");

    let stderr_spoke = GitService::interpret_git_output(false, false, Some(2), "", " bad \n", false);
    assert_eq!(stderr_spoke.unwrap_err(), "bad");

    let silent = GitService::interpret_git_output(false, false, Some(128), "", "  ", false);
    assert_eq!(silent.unwrap_err(), "Git command failed with exit code Some(128)");

    let no_code = GitService::interpret_git_output(false, false, None, "", "", false);
    assert_eq!(no_code.unwrap_err(), "Git command failed with exit code None");

    let negative = GitService::interpret_git_output(false, false, Some(-1), "", "", false);
    assert_eq!(negative.unwrap_err(), "Git command failed with exit code Some(-1)");
}

#[test]
fn add_refuses_duplicates_with_message() {
    let svc = GitService::new();
    let existing = vec![alias("co", "checkout", "global")];
    let err = svc.add_alias(&existing, "co", "checkout -b", "global", &None).unwrap_err();
    assert_eq!(err, "Alias \"co\" already exists in global config");

    let inv = svc.add_alias(&existing, "sw", "switch", "global", &None).unwrap();
    assert_eq!(inv.args, vec!["config", "--global", "alias.sw", "switch"]);
    assert_eq!(inv.cwd, None);
}

#[test]
fn update_removes_old_key_only_on_rename() {
    let svc = GitService::new();
    let (unset, set) = svc.update_alias("co", "sw", "switch", "global", &None);
    let unset = unset.unwrap();
    assert_eq!(unset.args, vec!["config", "--global", "--unset", "alias.co"]);
    assert_eq!(set.args, vec!["config", "--global", "alias.sw", "switch"]);

    let (unset, _) = svc.update_alias("co", "co", "checkout", "global", &None);
    assert!(unset.is_none());
}

#[test]
fn delete_targets_resolved_path() {
    let mut svc = GitService::new();
    let persist = svc.set_local_path(Some("/tmp/repo".to_string()));
    assert!(persist);
    let inv = svc.delete_alias("co", "local", &None);
    assert_eq!(inv.args, vec!["config", "--local", "--unset", "alias.co"]);
    assert_eq!(inv.cwd.as_deref(), Some("/tmp/repo"));

    let supplied = Some("/other".to_string());
    let inv = svc.delete_alias("co", "local", &supplied);
    assert_eq!(inv.cwd.as_deref(), Some("/other"));

    let inv = svc.delete_alias("co", "global", &supplied);
    assert_eq!(inv.cwd, None);
}

#[test]
fn scan_paths_follows_scope_and_pin() {
    let mut svc = GitService::new();
    svc.set_local_path(Some("/a".to_string()));
    svc.known_repos.add("/b");
    // pinned path wins for plain local scope
    assert_eq!(svc.scan_paths("local"), vec!["/a".to_string()]);
    // the all scope scans every known repository
    let mut all = svc.scan_paths("all");
    all.sort();
    assert_eq!(all, vec!["/a".to_string(), "/b".to_string()]);
    assert_eq!(svc.scan_paths("global"), Vec::<String>::new());

    let mut unpinned = GitService::new();
    unpinned.known_repos.add("/c");
    assert_eq!(unpinned.scan_paths("local"), vec!["/c".to_string()]);
}

#[test]
fn discovery_invocation_args() {
    let g = GitService::discovery_invocation(true, None);
    assert_eq!(g.args, vec!["config", "--global", "--get-regexp", "^alias\\."]);
    let l = GitService::discovery_invocation(false, Some("/tmp/repo".to_string()));
    assert_eq!(l.args, vec!["config", "--local", "--get-regexp", "^alias\\."]);
    assert_eq!(l.cwd.as_deref(), Some("/tmp/repo"));
}

#[test]
fn validate_command_runs_through_the_service() {
    let svc = GitService::new();
    let r = svc.validate_command("push --force");
    assert!(r.valid);
    assert_eq!(r.warnings, vec!["Contains force push (--force)".to_string()]);
}

#[test]
fn discovery_attaches_ranked_scores() {
    let cache = gam::history::HistoryCache {
        entries: vec![(
            "git st".to_string(),
            gam::history::HistoryEntry { frequency_units: 60, last_seen: 999 },
        )],
    };
    let mut svc = GitService::new();
    svc.ranking = gam::ranking::RankingService { history_cache: cache, last_fetch_time: Some(1000) };

    let r = svc.get_aliases(Some("alias.st status -sb\nalias.zz whatever\n"), &vec![], 1000);
    assert_eq!(r.len(), 2);
    assert_eq!(r[0].name, "st");
    let expected = gam::ranking::score_half(
        gam::ranking::MULT_HOUR_Q,
        gam::ranking::length_factor_fp("status -sb".chars().count()),
        60,
    );
    assert_eq!(r[0].score, Some(expected));
    assert_eq!(r[1].name, "zz");
    assert_eq!(r[1].score, Some(0));
}
