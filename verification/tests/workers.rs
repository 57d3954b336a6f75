use notify::event::{AccessKind, AccessMode, CreateKind, Flag, ModifyKind, RemoveKind, RenameMode};
use notify::{Event, EventKind};
use sidebar::collections::{StrMap, StrSet};
use sidebar::configwatch::{config_event_triggers_reload, ConfigWatcher, IDLE_WAIT, RELOAD_DEBOUNCE};
use sidebar::github::{
    clear_check_path_cache, clear_pr_path_cache, github_fetch_due, group_github_branches, merge_github_outcome,
    publish_check_path_cache, publish_pr_path_cache, sort_entries, BranchQueryOutcome, BranchSummary, GithubWorker,
    GithubWorkerPath, GITHUB_FETCH_INTERVAL,
};
use sidebar::gitloop::{expire_git_roots, next_audit_path, recovery_ready, same_entries, GitWorker, IgnoreTable, Refresh};
use sidebar::gitworker::{
    next_worker_timeout, publish_status, reconcile_git_cache, resolve_git_worktrees_cached, undiscovered, GitWorkerPath,
    ResolvedGitWorktree, DEBOUNCE, GIT_ROOT_REVALIDATION_INTERVAL, MIN_REFRESH_INTERVAL,
};
use sidebar::model::{CheckState, CheckSummary, GitStatus, PrSummary};
use sidebar::paths::{join, normal_form, ordered, sorted, strip_dir};
use sidebar::publish::same_maps;
use sidebar::snapshot::{CheckPathEntry, PrPathEntry};
use sidebar::watch::{
    build_gitignore, git_event_requires_recovery, ignored_tracked_paths, is_event_ignored, is_noise, is_well_placed,
    read_common_dir, read_git_file, worktree_watch_specs, DotGit, WatchEvent, WatchTable, WorktreeWatchSpec,
};
use std::path::PathBuf;

const SECOND: u64 = 1_000_000_000;
const START: u64 = 1_000 * SECOND;

fn map_of<V, const N: usize>(entries: [(&str, V); N]) -> StrMap<V> {
    let mut m = StrMap::new();
    for (k, v) in entries {
        m.insert(k.to_string(), v);
    }
    m
}

fn set_of(items: &[&str]) -> StrSet {
    let mut s = StrSet::new();
    for i in items {
        s.insert(i.to_string());
    }
    s
}

fn strings(items: &[&str]) -> Vec<String> {
    items.iter().map(|s| s.to_string()).collect()
}

fn items(set: &StrSet) -> Vec<String> {
    sorted(set)
}

fn watch_event(event: &Event) -> WatchEvent {
    WatchEvent {
        rescan: event.need_rescan(),
        access: matches!(event.kind, EventKind::Access(_)),
        paths: event.paths.iter().map(|p| p.to_string_lossy().to_string()).collect(),
    }
}

// ── GitHub ──────────────────────────────────────────────────────

fn pr(number: u32) -> PrSummary {
    PrSummary {
        number,
        title: format!("PR {number}"),
        state: "OPEN".to_string(),
        is_draft: false,
        checks: None,
        check_meta: None,
        url: None,
    }
}

fn checks(state: CheckState) -> CheckSummary {
    CheckSummary { state, meta: None }
}

#[test]
fn partial_github_outcome_updates_answered_and_retains_unanswered_branches() {
    let previous_prs = map_of([("answered", pr(1)), ("unanswered", pr(2)), ("inactive", pr(3))]);
    let previous_checks = map_of([
        ("answered", checks(CheckState::Success)),
        ("unanswered", checks(CheckState::Failure { passed: 0, total: 1 })),
        ("inactive", checks(CheckState::Success)),
    ]);
    let outcome = BranchQueryOutcome {
        requested: set_of(&["answered", "unanswered"]),
        answered: map_of([("answered", BranchSummary { pr: None, checks: None })]),
    };

    let (prs, checks) = merge_github_outcome(previous_prs, previous_checks, &outcome);

    assert!(!prs.contains_key("answered"));
    assert!(!checks.contains_key("answered"));
    assert_eq!(prs.get("unanswered").map(|pr| pr.number), Some(2));
    assert!(matches!(
        checks.get("unanswered").map(|check| &check.state),
        Some(CheckState::Failure { .. })
    ));
    assert!(!prs.contains_key("inactive"));
    assert!(!checks.contains_key("inactive"));
}

#[test]
fn github_fetch_is_throttled_between_intervals() {
    assert!(!github_fetch_due(false, 29 * SECOND));
    assert!(github_fetch_due(false, 30 * SECOND));
    assert!(github_fetch_due(true, 0));
}

fn on(path: &str, branch: &str) -> GithubWorkerPath {
    GithubWorkerPath { path: path.to_string(), branch: branch.to_string() }
}

#[test]
fn github_branches_are_grouped_by_common_repository() {
    let first = "/repo__worktrees/first";
    let second = "/repo__worktrees/second";
    let other = "/other";
    let common = "/repo/.git".to_string();
    let other_common = "/other/.git".to_string();
    let entries = vec![on(first, "feature-a"), on(second, "feature-b"), on(other, "main")];
    let repo_keys = map_of([(first, common.clone()), (second, common.clone()), (other, other_common.clone())]);

    let grouped = group_github_branches(&entries, &repo_keys);

    assert_eq!(grouped.len(), 2);
    let of_common = grouped.get(&common).unwrap();
    assert_eq!(of_common.root, first);
    assert_eq!(of_common.branches, vec!["feature-a".to_string(), "feature-b".to_string()]);
    let of_other = grouped.get(&other_common).unwrap();
    assert_eq!(of_other.root, other);
    assert_eq!(of_other.branches, vec!["main".to_string()]);
}

#[test]
fn branches_are_asked_about_once_and_in_order() {
    let entries = vec![on("/a", "z"), on("/b", "a/b"), on("/c", "a-b"), on("/d", "z"), on("/e", "lost")];
    let keys = map_of([
        ("/a", "/git".to_string()),
        ("/b", "/git".to_string()),
        ("/c", "/git".to_string()),
        ("/d", "/git".to_string()),
    ]);
    let grouped = group_github_branches(&entries, &keys);
    assert_eq!(grouped.get("/git").unwrap().branches, vec!["a-b", "a/b", "z"]);
    assert_eq!(grouped.len(), 1);
}

#[test]
fn clear_pr_path_cache_only_reports_content_changes() {
    let mut cache: StrMap<PrPathEntry> = StrMap::new();

    assert!(!clear_pr_path_cache(&mut cache));

    cache.insert("/repo".to_string(), PrPathEntry { branch: "feature".to_string(), summary: pr(123) });

    assert!(clear_pr_path_cache(&mut cache));
    assert!(cache.is_empty());
    assert!(!clear_pr_path_cache(&mut cache));

    let mut checked = map_of([(
        "/repo",
        CheckPathEntry { branch: "feature".to_string(), summary: checks(CheckState::Success) },
    )]);
    assert!(clear_check_path_cache(&mut checked));
    assert!(!clear_check_path_cache(&mut checked));
}

#[test]
fn pr_path_cache_records_branch() {
    let entries = vec![on("/repo", "feature")];
    let repo_keys = map_of([("/repo", "/repo".to_string())]);
    let repo_cache = map_of([("/repo", map_of([("feature", pr(123))]))]);
    let mut path_cache = StrMap::new();

    let dirty = publish_pr_path_cache(&entries, &repo_keys, &repo_cache, &mut path_cache);

    let entry = path_cache.get("/repo").unwrap();
    assert_eq!(entry.branch, "feature");
    assert_eq!(entry.summary.number, 123);
    assert!(dirty);

    // What is shown already is no news.
    assert!(!publish_pr_path_cache(&entries, &repo_keys, &repo_cache, &mut path_cache));
    let elsewhere = vec![on("/repo", "other")];
    assert!(publish_pr_path_cache(&elsewhere, &repo_keys, &repo_cache, &mut path_cache));
    assert!(path_cache.is_empty());
}

#[test]
fn check_path_cache_follows_the_branch() {
    let keys = map_of([("/repo", "/git".to_string())]);
    let cache = map_of([(
        "/git",
        map_of([("a", checks(CheckState::Success)), ("b", checks(CheckState::Pending { passed: 1, total: 2 }))]),
    )]);
    let mut shown = StrMap::new();
    assert!(publish_check_path_cache(&vec![on("/repo", "a")], &keys, &cache, &mut shown));
    assert_eq!(shown.get("/repo").unwrap().summary.state, CheckState::Success);
    assert!(publish_check_path_cache(&vec![on("/repo", "b")], &keys, &cache, &mut shown));
    assert_eq!(shown.get("/repo").unwrap().summary.state, CheckState::Pending { passed: 1, total: 2 });
}

#[test]
fn entries_are_sorted_and_doubles_dropped() {
    let sorted = sort_entries(&vec![on("/b", "x"), on("/a", "z"), on("/b", "x"), on("/a", "y"), on("/a/c", "y")]);
    let told: Vec<_> = sorted.iter().map(|e| (e.path.as_str(), e.branch.as_str())).collect();
    assert_eq!(told, vec![("/a", "y"), ("/a", "z"), ("/a/c", "y"), ("/b", "x")]);
}

#[test]
fn the_github_worker_asks_and_shows_what_it_learns() {
    let mut prs = StrMap::new();
    let mut checks_shown = StrMap::new();
    let mut worker = GithubWorker::new(StrMap::new(), StrMap::new(), START);
    assert_eq!(worker.idle(true, &mut prs, &mut checks_shown), Some(false));

    assert!(worker.receive(Some(vec![on("/repo", "feature"), on("/repo", "feature")])));
    assert_eq!(worker.idle(true, &mut prs, &mut checks_shown), None);
    assert_eq!(items(&worker.undiscovered()), vec!["/repo"]);
    worker.discover(&map_of([("/repo", "/git".to_string())]));
    assert!(!worker.show(&mut prs, &mut checks_shown));

    let asked = worker.requests(START).unwrap();
    assert_eq!(asked.get("/git").unwrap().branches, vec!["feature"]);
    let outcomes = map_of([(
        "/git",
        BranchQueryOutcome {
            requested: set_of(&["feature"]),
            answered: map_of([(
                "feature",
                BranchSummary { pr: Some(pr(7)), checks: Some(checks(CheckState::Success)) },
            )]),
        },
    )]);
    worker.take_answers(&outcomes, START);
    assert!(worker.show(&mut prs, &mut checks_shown));
    assert_eq!(prs.get("/repo").unwrap().summary.number, 7);
    assert!(checks_shown.contains_key("/repo"));

    // It waits for the interval, unless the branches change.
    assert!(worker.requests(START + GITHUB_FETCH_INTERVAL - 1).is_none());
    assert!(worker.requests(START + GITHUB_FETCH_INTERVAL).is_some());
    assert!(!worker.receive(None));
    assert!(worker.receive(Some(vec![on("/repo", "other")])));
    assert!(worker.requests(START + 1).is_some());

    // An answer that there is nothing leaves no record.
    let nothing = map_of([(
        "/git",
        BranchQueryOutcome {
            requested: set_of(&["other"]),
            answered: map_of([("other", BranchSummary { pr: None, checks: None })]),
        },
    )]);
    worker.take_answers(&nothing, START + 1);
    assert!(!worker.prs.contains_key("/git"));
    assert!(!worker.checks.contains_key("/git"));

    worker.receive(Some(Vec::new()));
    assert_eq!(worker.idle(true, &mut prs, &mut checks_shown), Some(true));
    assert!(prs.is_empty() && checks_shown.is_empty());
}

#[test]
fn nothing_is_asked_without_a_known_repository() {
    let mut worker = GithubWorker::new(StrMap::new(), StrMap::new(), START);
    worker.receive(Some(vec![on("/plain", "main")]));
    assert!(worker.requests(START).is_none());
    assert_eq!(worker.last_key.len(), 1);
}

// ── Git worktrees ───────────────────────────────────────────────

fn entry(path: &str, is_stale: bool, is_focused: bool) -> GitWorkerPath {
    GitWorkerPath { path: path.to_string(), is_stale, is_focused }
}

#[test]
fn rescan_events_request_recovery() {
    let event = Event::new(EventKind::Other).set_flag(Flag::Rescan);
    assert!(git_event_requires_recovery(&watch_event(&event)));
    assert!(!git_event_requires_recovery(&watch_event(&Event::new(EventKind::Other))));
}

#[test]
fn recovery_cooldown_coalesces_repeated_failures() {
    let cooldown = 30 * SECOND;
    assert!(recovery_ready(true, START - cooldown, cooldown, START));
    assert!(!recovery_ready(true, START, cooldown, START));
    assert!(!recovery_ready(false, START - cooldown, cooldown, START));
}

#[test]
fn rolling_audit_is_fair_and_skips_incomplete_watches() {
    let paths = strings(&["/one", "/two", "/three"]);
    let mut table = WatchTable::new();
    table.watch_complete = map_of([("/one", true), ("/two", false), ("/three", true)]);
    let mut cursor = 0;

    assert_eq!(next_audit_path(&paths, &table, &mut cursor), Some(paths[0].clone()));
    assert_eq!(next_audit_path(&paths, &table, &mut cursor), Some(paths[2].clone()));
    assert_eq!(next_audit_path(&paths, &table, &mut cursor), Some(paths[0].clone()));
}

#[test]
fn audits_take_turns_wherever_they_start() {
    let paths = strings(&["/one", "/two", "/three", "/four"]);
    let mut table = WatchTable::new();
    table.watch_complete = map_of([("/one", true), ("/two", true), ("/four", true)]);
    for start in 0..9 {
        let mut cursor = start;
        let mut picked: Vec<String> =
            (0..3).map(|_| next_audit_path(&paths, &table, &mut cursor).unwrap()).collect();
        picked.sort();
        assert_eq!(picked, strings(&["/four", "/one", "/two"]));
    }

    table.watch_complete = StrMap::new();
    let mut cursor = 6;
    assert_eq!(next_audit_path(&paths, &table, &mut cursor), None);
    assert_eq!(cursor, 2);
}

#[test]
fn ignored_tracked_files_still_trigger_refresh() {
    let root = "/work/repo";
    let gitignores = map_of([(root, build_gitignore(root, &strings(&["*.log"])))]);
    let ignored_tracked = map_of([(root, ignored_tracked_paths(root, "tracked.log\0"))]);

    assert!(!is_event_ignored("/work/repo/tracked.log", root, &gitignores, &ignored_tracked));
    assert!(is_event_ignored("/work/repo/generated.log", root, &gitignores, &ignored_tracked));
}

#[test]
fn ignore_rules_follow_the_lines_of_the_file() {
    let root = "/work/repo";
    let lines = strings(&["\u{feff}target/", "# a note", "!keep.log", "*.log", "/top.txt"]);
    let gitignores = map_of([(root, build_gitignore(root, &lines))]);
    let none = StrMap::new();
    for (path, ignored) in [
        ("/work/repo/target/debug/app", true),
        ("/work/repo/sub/a.log", true),
        ("/work/repo/top.txt", true),
        ("/work/repo/sub/top.txt", false),
        ("/work/repo/src/main.rs", false),
        ("/elsewhere/a.log", false),
        ("/work/repo/.git/index", false),
    ] {
        assert_eq!(is_event_ignored(path, root, &gitignores, &none), ignored, "{path}");
    }
}

#[test]
fn git_objects_and_logs_are_noise() {
    let told = |paths: &[&str]| WatchEvent { rescan: false, access: false, paths: strings(paths) };
    assert!(is_noise(&told(&["/r/.git/objects/ab/cd", "/r/.git/logs/HEAD"])));
    assert!(!is_noise(&told(&["/r/.git/objects/ab/cd", "/r/.git/HEAD"])));
    assert!(!is_noise(&told(&["/r/src/main.rs"])));
    assert!(is_noise(&told(&[])));
}

#[test]
fn a_report_of_lost_changes_is_never_noise() {
    for paths in [strings(&[]), strings(&["/r/.git/objects/ab/cd"])] {
        let lost = WatchEvent { rescan: true, access: false, paths };
        assert!(!is_noise(&lost));
        assert!(git_event_requires_recovery(&lost));
    }
}

#[test]
fn rules_are_asked_about_well_placed_paths_alone() {
    assert!(is_well_placed("/work/repo/a.log", "/work/repo"));
    assert!(!is_well_placed("/elsewhere/a.log", "/work/repo"));
    assert!(!is_well_placed("/work/repo//a.log", "/work/repo"));
    assert!(!is_well_placed(".///a.log", ""));
    assert!(is_well_placed("./a.log", ""));

    for (path, root) in [
        ("a.log", ""),
        ("/a.log", ""),
        ("./a.log", ""),
        (".//a.log", ""),
        ("./a.log", "."),
        ("./a.log", "./"),
        ("./x/a.log", "./x"),
        (".//x/a.log", ".//x"),
        ("/a.log", "/"),
    ] {
        assert!(is_well_placed(path, root), "{path} in {root:?}");
        let gitignores = map_of([(root, build_gitignore(root, &strings(&["*.log"])))]);
        assert!(is_event_ignored(path, root, &gitignores, &StrMap::new()), "{path} in {root:?}");
    }
}

fn resolved(agent_paths: &[&str], is_stale: bool, is_focused: bool) -> ResolvedGitWorktree {
    ResolvedGitWorktree { agent_paths: strings(agent_paths), is_stale, is_focused }
}

#[test]
fn cache_projects_status_when_agent_path_changes_under_same_root() {
    let root = "/repo";
    let nested = "/repo/nested";
    let previous = map_of([(root, resolved(&[root], true, false))]);
    let current = map_of([(root, resolved(&[nested], true, false))]);
    let status = GitStatus { branch: Some("main".to_string()), ..GitStatus::default() };
    let mut cache = map_of([(root, status.clone())]);

    let (changed, missing) = reconcile_git_cache(&previous, &current, &mut cache);

    assert!(changed);
    assert!(missing.is_empty());
    assert!(same_maps(&cache, &map_of([(nested, status)])));
    assert!(!cache.contains_key(root));
}

#[test]
fn root_revalidation_retries_negative_discoveries() {
    let path = "/tmp/project";
    let entries = vec![entry(path, true, false)];
    let mut roots = StrMap::new();
    let not_found = map_of([(path, None)]);
    assert!(resolve_git_worktrees_cached(&entries, &mut roots, &not_found).is_empty());
    let start = START;
    let mut last_revalidation = start;
    assert!(expire_git_roots(&mut roots, &mut last_revalidation, start + GIT_ROOT_REVALIDATION_INTERVAL));
    assert_eq!(items(&undiscovered(&entries, &roots)), vec![path]);
    let found = map_of([(path, Some(path.to_string()))]);
    let resolved = resolve_git_worktrees_cached(&entries, &mut roots, &found);
    assert!(resolved.contains_key(path));
    assert!(!expire_git_roots(
        &mut roots,
        &mut last_revalidation,
        start + GIT_ROOT_REVALIDATION_INTERVAL + SECOND,
    ));
    assert!(undiscovered(&entries, &roots).is_empty());
    assert!(same_maps(&resolve_git_worktrees_cached(&entries, &mut roots, &StrMap::new()), &resolved));
}

#[test]
fn cached_resolution_updates_relevance_without_repository_discovery() {
    let repo = "/link/repo";
    let root = "/real/repo";
    let mut roots = map_of([(repo, Some(root.to_string()))]);
    let entries = vec![entry(repo, false, true)];
    assert!(undiscovered(&entries, &roots).is_empty());

    let resolved = resolve_git_worktrees_cached(&entries, &mut roots, &StrMap::new());

    assert_eq!(resolved.len(), 1);
    let worktree = resolved.get(root).unwrap();
    assert_eq!(worktree.agent_paths, vec![repo]);
    assert!(!worktree.is_stale);
    assert!(worktree.is_focused);
}

#[test]
fn non_repository_agent_path_produces_no_watch_or_refresh_roots() {
    let path = "/tmp/plain";
    let entries = vec![entry(path, false, false)];

    let resolved = resolve_git_worktrees_cached(&entries, &mut StrMap::new(), &map_of([(path, None)]));

    assert!(resolved.is_empty());
}

#[test]
fn nested_agent_paths_share_the_repository_root() {
    let repo = "/work/repo";
    let nested = "/work/repo/src/nested";
    let entries = vec![entry(repo, true, false), entry(nested, false, true)];

    let found = map_of([(repo, Some(repo.to_string())), (nested, Some(repo.to_string()))]);
    let resolved = resolve_git_worktrees_cached(&entries, &mut StrMap::new(), &found);

    assert_eq!(resolved.len(), 1);
    let worktree = resolved.get(repo).unwrap();
    assert_eq!(worktree.agent_paths, vec![repo, nested]);
    assert!(!worktree.is_stale);
    assert!(worktree.is_focused);
}

fn shape(specs: &[WorktreeWatchSpec]) -> Vec<(String, bool)> {
    specs.iter().map(|s| (s.path.clone(), s.recursive)).collect()
}

#[test]
fn linked_worktree_uses_its_root_and_shared_git_metadata() {
    let linked_root = "/work/linked";
    let nested = "/work/linked/nested";
    let entries = vec![entry(nested, false, false)];
    let discovered = map_of([(nested, Some(linked_root.to_string()))]);
    let resolved = resolve_git_worktrees_cached(&entries, &mut StrMap::new(), &discovered);
    assert_eq!(resolved.len(), 1);
    assert_eq!(resolved.get(linked_root).unwrap().agent_paths, vec![nested]);

    let git_dir = read_git_file(linked_root, "gitdir: /work/repo/.git/worktrees/linked\n").unwrap();
    assert_eq!(git_dir, "/work/repo/.git/worktrees/linked");
    let common_dir = read_common_dir(&git_dir, "../..\n");
    assert_eq!(common_dir, "/work/repo/.git/worktrees/linked/../..");
    let common_dir = "/work/repo/.git".to_string();
    let dot_git = DotGit::Link { git_dir: Some(git_dir.clone()), common_dir: Some(common_dir.clone()), refs: true };
    let specs = shape(&worktree_watch_specs(linked_root, &dot_git, true));

    assert!(specs.contains(&(git_dir, false)));
    assert!(specs.contains(&(common_dir.clone(), false)));
    assert!(specs.contains(&(format!("{common_dir}/refs"), true)));
    assert!(specs.contains(&(linked_root.to_string(), true)));
}

#[test]
fn plain_worktrees_watch_their_own_metadata() {
    let specs = shape(&worktree_watch_specs("/repo", &DotGit::Directory { refs: true }, false));
    assert_eq!(specs, vec![("/repo/.git".to_string(), false), ("/repo/.git/refs".to_string(), true)]);
    assert!(worktree_watch_specs("/repo", &DotGit::Missing, false).is_empty());
    assert!(read_git_file("/repo", "something else").is_none());
    assert_eq!(read_git_file("/repo", "gitdir: ../main/.git\n").unwrap(), "/repo/../main/.git");
}

#[test]
fn shared_directories_are_watched_while_a_worktree_needs_them() {
    let mut table = WatchTable::new();
    let specs = |own: &str| {
        vec![
            WorktreeWatchSpec { path: "/shared".to_string(), recursive: false },
            WorktreeWatchSpec { path: own.to_string(), recursive: true },
        ]
    };
    table.setup_worktree_watches("/a", &specs("/a"), &vec![true, true]);
    table.setup_worktree_watches("/b", &specs("/b"), &vec![false, false]);
    assert!(table.is_complete("/a"));
    assert!(!table.is_complete("/b"));
    assert_eq!(items(&table.find_worktrees_for_path("/shared/HEAD")), vec!["/a", "/b"]);
    assert_eq!(items(&table.find_worktrees_for_path("/a/src/main.rs")), vec!["/a"]);
    assert_eq!(items(&table.inactive_roots(&set_of(&["/b"]))), vec!["/a"]);
    assert_eq!(table.detach_worktree_watches("/a"), vec!["/a"]);
    table.forget("/a");
    assert!(!table.has_root("/a"));
    assert_eq!(table.detach_worktree_watches("/b"), vec!["/shared"]);
}

#[test]
fn statuses_are_published_to_every_agent_of_a_worktree() {
    let mut cache = StrMap::new();
    let status = GitStatus { ahead: 2, ..GitStatus::default() };
    let agents = strings(&["/r", "/r/sub"]);
    assert!(publish_status(&mut cache, &agents, &status));
    assert!(!publish_status(&mut cache, &agents, &GitStatus { cached_at: Some(9), ..status.clone() }));
    assert_eq!(cache.get("/r/sub").unwrap().ahead, 2);
}

#[test]
fn the_worker_waits_for_the_first_pending_worktree() {
    let pending = map_of([("/a", START), ("/b", START - 100_000_000)]);
    assert_eq!(next_worker_timeout(&pending, DEBOUNCE, START), 200_000_000);
    assert_eq!(next_worker_timeout(&pending, DEBOUNCE, START + SECOND), 1_000_000);
    assert_eq!(next_worker_timeout(&StrMap::new(), DEBOUNCE, START), SECOND);
}

// ── The git worker ──────────────────────────────────────────────

/// A worker with agents in `/a` and `/b`, both worktrees.
fn worker() -> GitWorker {
    let mut worker = GitWorker::new(true, true, START);
    assert!(worker.take_entries(Some(vec![entry("/a", true, false), entry("/b", false, false)])));
    let found = map_of([("/a", Some("/a".to_string())), ("/b", Some("/b".to_string()))]);
    let previous = worker.resolve(&found).unwrap();
    assert!(previous.is_empty());
    worker
}

fn complete_table() -> WatchTable {
    let mut table = WatchTable::new();
    for root in ["/a", "/b"] {
        let specs = vec![WorktreeWatchSpec { path: root.to_string(), recursive: true }];
        table.setup_worktree_watches(root, &specs, &vec![true]);
    }
    table
}

#[test]
fn the_order_of_entries_does_not_matter() {
    let mut worker = worker();
    assert!(!worker.take_entries(None));
    assert!(!worker.take_entries(Some(vec![entry("/b", false, false), entry("/a", true, false)])));
    assert!(worker.take_entries(Some(vec![entry("/b", false, true), entry("/a", true, false)])));
    assert!(same_entries(&vec![], &vec![]));
    assert!(!same_entries(&vec![entry("/a", true, true)], &vec![]));
}

#[test]
fn unchanged_worktrees_are_not_resolved_anew() {
    let mut worker = worker();
    assert_eq!(worker.unique_active, vec!["/a", "/b"]);
    assert!(worker.resolve(&StrMap::new()).is_none());
}

#[test]
fn changes_are_noted_unless_they_are_ignored() {
    let mut worker = worker();
    let table = complete_table();
    let mut ignores = IgnoreTable::new();
    ignores.load("/a", &strings(&["*.log"]), "");
    assert_eq!(items(&GitWorker::rules_to_load("/a/.gitignore", &table)), vec!["/a"]);
    assert!(GitWorker::rules_to_load("/a/src/lib.rs", &table).is_empty());
    assert!(GitWorker::can_note("/a/x.log", &table, &ignores));
    assert!(!GitWorker::can_note("/a//x.log", &table, &ignores));
    worker.note_change("/a/x.log", &table, &ignores, START);
    assert!(worker.pending.is_empty());
    worker.note_change("/a/x.rs", &table, &ignores, START);
    worker.note_change("/a/y.rs", &table, &ignores, START + 1);
    assert_eq!(worker.pending.get("/a"), Some(&START));
    assert!(worker.ready(START + DEBOUNCE - 1).is_empty());
    assert_eq!(items(&worker.ready(START + DEBOUNCE)), vec!["/a"]);
    ignores.retain_in(&set_of(&["/b"]));
    assert!(!ignores.rules.contains_key("/a"));
}

#[test]
fn woken_and_missing_worktrees_are_looked_at_at_once() {
    let mut worker = worker();
    worker.take_entries(Some(vec![entry("/a", false, false), entry("/b", false, true)]));
    let previous = worker.resolve(&StrMap::new()).unwrap();
    worker.expect(&previous, &strings(&["/c"]), START);
    assert_eq!(items(&worker.ready(START)), vec!["/a", "/b", "/c"]);
}

#[test]
fn refreshes_are_spaced() {
    let mut worker = worker();
    assert!(matches!(worker.start_refresh("/a", START), Refresh::Now(agents) if agents == ["/a"]));
    worker.finish_refresh("/a", START);
    assert!(matches!(worker.start_refresh("/a", START + SECOND), Refresh::Later));
    assert!(worker.ready(START + MIN_REFRESH_INTERVAL - 1).is_empty());
    assert_eq!(items(&worker.ready(START + MIN_REFRESH_INTERVAL)), vec!["/a"]);
    assert!(matches!(worker.start_refresh("/a", START + MIN_REFRESH_INTERVAL), Refresh::Now(_)));
    assert!(matches!(worker.start_refresh("/gone", START), Refresh::Dropped));
    assert!(worker.pending.is_empty());
}

#[test]
fn lost_reports_are_recovered_once_per_cooldown() {
    let mut worker = worker();
    worker.recover(START);
    assert!(worker.pending.is_empty());
    worker.reports_lost();
    worker.recover(START);
    assert_eq!(items(&worker.ready(START)), vec!["/a", "/b"]);
    worker.pending = StrMap::new();
    worker.reports_lost();
    worker.recover(START + 29 * SECOND);
    assert!(worker.pending.is_empty());
    worker.recover(START + 30 * SECOND);
    assert!(!worker.pending.is_empty());
}

#[test]
fn maintenance_polls_what_is_not_reported() {
    let mut table = complete_table();
    table.detach_worktree_watches("/b");
    table.forget("/b");
    let mut worker = self::worker();
    assert!(worker.maintain(&table, START + 5 * SECOND - 1).is_empty());
    assert!(worker.pending.is_empty());
    assert_eq!(worker.maintain(&table, START + 5 * SECOND), vec!["/b"]);
    assert_eq!(items(&worker.ready(START + 5 * SECOND)), vec!["/b"]);

    let mut degraded = self::worker();
    degraded.watch_failed();
    assert!(degraded.reporting.recovery_due);
    assert!(degraded.maintain(&table, START + 2 * SECOND).is_empty());
    assert_eq!(items(&degraded.ready(START + 2 * SECOND)), vec!["/a", "/b"]);
}

#[test]
fn audits_go_round() {
    let table = complete_table();
    let mut worker = worker();
    worker.audit(&table, START + 5 * SECOND - 1);
    assert!(worker.pending.is_empty());
    worker.audit(&table, START + 5 * SECOND);
    assert_eq!(items(&worker.ready(START + 5 * SECOND)), vec!["/a"]);
    worker.audit(&table, START + 10 * SECOND);
    assert_eq!(items(&worker.ready(START + 10 * SECOND)), vec!["/a", "/b"]);
}

// ── Configuration ───────────────────────────────────────────────

#[test]
fn config_reload_triggers_on_mutations_of_config_files() {
    let config = PathBuf::from("/home/u/.config/workmux/config.yaml");
    for kind in [
        EventKind::Modify(ModifyKind::Any),
        EventKind::Create(CreateKind::File),
        EventKind::Remove(RemoveKind::File),
    ] {
        let event = Event::new(kind).add_path(config.clone());
        assert!(config_event_triggers_reload(&watch_event(&event)), "kind: {kind:?}");
    }

    let project = Event::new(EventKind::Modify(ModifyKind::Any)).add_path(PathBuf::from("/repo/.workmux.yaml"));
    assert!(config_event_triggers_reload(&watch_event(&project)));

    let atomic_rename = Event::new(EventKind::Modify(ModifyKind::Name(RenameMode::Both)))
        .add_path(PathBuf::from("/home/u/.config/workmux/config.yaml.tmp"))
        .add_path(config);
    assert!(config_event_triggers_reload(&watch_event(&atomic_rename)));
}

#[test]
fn config_reload_ignores_access_events_and_other_files() {
    let config = PathBuf::from("/home/u/.config/workmux/config.yaml");
    for kind in [
        EventKind::Access(AccessKind::Open(AccessMode::Any)),
        EventKind::Access(AccessKind::Close(AccessMode::Read)),
        EventKind::Access(AccessKind::Close(AccessMode::Write)),
    ] {
        let event = Event::new(kind).add_path(config.clone());
        assert!(!config_event_triggers_reload(&watch_event(&event)), "kind: {kind:?}");
    }

    let unrelated = Event::new(EventKind::Modify(ModifyKind::Any))
        .add_path(PathBuf::from("/home/u/.config/workmux/other.txt"));
    assert!(!config_event_triggers_reload(&watch_event(&unrelated)));
}

#[test]
fn config_reload_triggers_on_rescan() {
    let event = Event::new(EventKind::Other).set_flag(Flag::Rescan);

    assert!(config_event_triggers_reload(&watch_event(&event)));
}

#[test]
fn a_burst_of_changes_reloads_once() {
    let mut watcher = ConfigWatcher::new(None);
    assert_eq!(watcher.timeout(START), IDLE_WAIT);
    let event = WatchEvent { rescan: false, access: false, paths: strings(&["/repo/.workmux.yml"]) };
    watcher.note_event(&event, START);
    watcher.note_event(&event, START + RELOAD_DEBOUNCE - 1);
    watcher.call(START + RELOAD_DEBOUNCE - 1);
    assert_eq!(watcher.timeout(START + 1), RELOAD_DEBOUNCE - 1);
    assert!(!watcher.reload(START + RELOAD_DEBOUNCE - 1));
    assert!(watcher.reload(START + RELOAD_DEBOUNCE));
    assert!(!watcher.reload(START + RELOAD_DEBOUNCE));
}

#[test]
fn the_global_directory_is_neither_unwatched_nor_watched_twice() {
    let mut watcher = ConfigWatcher::new(Some("/etc".to_string()));
    let wanted = set_of(&["/etc", "/a"]);
    assert!(watcher.let_go(&wanted).is_empty());
    assert_eq!(items(&watcher.take_up(&wanted)), vec!["/a"]);
    watcher.watched("/a");
    assert_eq!(items(&watcher.projects), vec!["/a", "/etc"]);
    assert_eq!(items(&watcher.let_go(&StrSet::new())), vec!["/a"]);
    assert!(watcher.projects.is_empty());
}

// ── Paths ───────────────────────────────────────────────────────

#[test]
fn paths_are_written_in_normal_form() {
    for (path, form) in [
        ("/a//b/./c/", "/a/b/c"),
        ("./a/.", "./a"),
        ("a/../b", "a/../b"),
        ("//", "/"),
        ("", ""),
        ("/a/b", "/a/b"),
        (".", "."),
    ] {
        assert_eq!(normal_form(path), form, "{path}");
        assert_eq!(PathBuf::from(path), PathBuf::from(form));
        assert_eq!(normal_form(form), form);
    }
    assert_ne!(normal_form("./a"), normal_form("a"));
}

#[test]
fn directories_are_compared_by_components() {
    let rest = |path: &str, dir: &str| strip_dir(path, dir);
    for (path, dir) in [
        ("/a/b/c", "/a"),
        ("/a//b/c", "/a/"),
        ("/a/./b", "/a"),
        ("/a", "/a/"),
        ("/ab", "/a"),
        ("a/b", "/a"),
        ("/a/b", ""),
        ("./a/b", "."),
        ("/a/b//c/", "/a"),
        ("/", "/"),
    ] {
        let expected = PathBuf::from(path).strip_prefix(dir).ok().map(|p| p.to_string_lossy().into_owned());
        assert_eq!(rest(path, dir), expected, "{path} in {dir}");
    }
    assert_eq!(rest(&join("/a/", "b/c"), "/a").as_deref(), Some("b/c"));
}

#[test]
fn paths_are_ordered_by_components() {
    let paths = ["/a", "/a/b", "/a-b", "/a/../x", "/a/-x", "a", "./a", "../a", "/", ""];
    for a in paths {
        for b in paths {
            let expected = PathBuf::from(a).cmp(&PathBuf::from(b)) as i8;
            assert_eq!(ordered(a, b), expected, "{a} and {b}");
        }
    }
}

#[test]
fn changes_are_judged_whatever_way_the_worktree_is_written() {
    let known = map_of([("/work/repo/", ignored_tracked_paths("/work/repo/", "sub//kept.log\0"))]);
    let gitignores = map_of([("/work/repo/", build_gitignore("/work/repo/", &strings(&["*.log"])))]);
    let judged = |path: &str| is_event_ignored(path, "/work/repo/", &gitignores, &known);
    assert!(!judged("/work/repo/sub/kept.log"));
    assert!(judged("/work/repo/sub/other.log"));
    assert!(judged("/work/repo/.git/objects/ab"));
    assert!(!judged("/work//repo/.git/HEAD"));
}
