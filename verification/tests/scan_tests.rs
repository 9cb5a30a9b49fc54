use code_context_builder::app_settings::{
    get_hardcoded_default_ignore_patterns, needs_seeding, patterns_to_store,
};
use code_context_builder::ignore_handler::{CompiledIgnorePatterns, MatchKind};
use code_context_builder::scan_state::{is_scan_cancelled, set_cancel_scan, CancelToken};
use code_context_builder::scanner::{
    advance, merge_patterns, reported_outcome, resolve_global_patterns, terminal_status,
    ScanAction, ScanEvent, ScanOutcome, ScanPhase,
};
use code_context_builder::traversal::{gather_valid_items, Walk, WalkStep, MAX_DEPTH};
use code_context_builder::types::{Candidate, Project};

fn pats(list: &[&str]) -> Vec<String> {
    list.iter().map(|s| s.to_string()).collect()
}

fn cand(path: &str, is_dir: bool) -> Candidate {
    Candidate { path: path.to_string(), is_dir }
}

// the entries of a small tree, by directory
fn listing(dir: &str) -> Vec<Candidate> {
    match dir {
        "/p" => vec![
            cand("/p/src", true),
            cand("/p/app.log", false),
            cand("/p/node_modules", true),
            cand("/p/README.md", false),
        ],
        "/p/src" => vec![cand("/p/src/main.rs", false), cand("/p/src/debug.log", false)],
        "/p/node_modules" => vec![cand("/p/node_modules/pkg", true)],
        "/p/node_modules/pkg" => vec![cand("/p/node_modules/pkg/index.js", false)],
        _ => Vec::new(),
    }
}

fn run_walk(rules: &CompiledIgnorePatterns, cancel_after: Option<usize>) -> (Vec<Candidate>, bool) {
    let mut walk = Walk::start("/p", true);
    let mut steps = 0;
    loop {
        let cancelled = match cancel_after {
            Some(n) => steps >= n,
            None => false,
        };
        steps += 1;
        match walk.step(rules, cancelled) {
            WalkStep::List(dir) => walk.supply_children(listing(&dir)),
            WalkStep::Visited => {},
            WalkStep::Finished => break,
            WalkStep::Cancelled => break,
        }
        assert!(steps < 1000);
    }
    let stopped = walk.was_cancelled();
    (walk.into_candidates(), stopped)
}

#[test]
fn log_files_are_ignored_at_any_depth() {
    let rules = CompiledIgnorePatterns::new("/p", &pats(&["*.log", "/node_modules/"]));
    assert!(rules.is_ignored("/p/app.log", false));
    assert!(rules.is_ignored("/p/src/app.log", false));
    assert!(rules.is_ignored("/p/a/b/c/app.log", false));
    assert!(!rules.is_ignored("/p/src/main.rs", false));
    assert_eq!(rules.classify("/p/src/main.rs", false), MatchKind::NotMatched);
    assert_eq!(rules.classify("/p/app.log", false), MatchKind::Ignored);
}

#[test]
fn node_modules_directory_and_all_below_it_is_left_out() {
    let rules = CompiledIgnorePatterns::new("/p", &pats(&["*.log", "/node_modules/"]));
    assert!(rules.is_ignored("/p/node_modules", true));
    // the rule names a directory: a file of that name is not matched
    assert!(!rules.is_ignored("/p/node_modules", false));
    let (found, stopped) = run_walk(&rules, None);
    assert!(!stopped);
    let paths: Vec<&str> = found.iter().map(|c| c.path.as_str()).collect();
    assert_eq!(paths, vec!["/p", "/p/src", "/p/src/main.rs", "/p/README.md"]);
}

#[test]
fn negated_pattern_keeps_a_file() {
    let rules = CompiledIgnorePatterns::new("/p", &pats(&["*.log", "!keep.log"]));
    assert!(!rules.is_ignored("/p/keep.log", false));
    assert_eq!(rules.classify("/p/keep.log", false), MatchKind::Whitelisted);
    assert!(rules.is_ignored("/p/other.log", false));
    assert!(rules.is_ignored("/p/sub/other.log", false));
    assert!(!rules.is_ignored("/p/sub/keep.log", false));
}

#[test]
fn negated_pattern_does_not_reach_into_an_ignored_directory() {
    let rules = CompiledIgnorePatterns::new("/p", &pats(&["*.log", "!keep.log", "logs/"]));
    assert!(rules.is_ignored("/p/logs", true));
    // the walk never enters the ignored directory, so keep.log below it is not found
    let mut walk = Walk::start("/p", true);
    let mut found_keep = false;
    loop {
        match walk.step(&rules, false) {
            WalkStep::List(dir) => {
                let kids = if dir == "/p" {
                    vec![cand("/p/logs", true), cand("/p/keep.log", false)]
                } else if dir == "/p/logs" {
                    found_keep = true;
                    vec![cand("/p/logs/keep.log", false)]
                } else {
                    Vec::new()
                };
                walk.supply_children(kids);
            },
            WalkStep::Visited => {},
            _ => break,
        }
    }
    assert!(!found_keep);
    let found = walk.into_candidates();
    let paths: Vec<&str> = found.iter().map(|c| c.path.as_str()).collect();
    assert_eq!(paths, vec!["/p", "/p/keep.log"]);
}

#[test]
fn later_rules_override_earlier_ones() {
    let rules = CompiledIgnorePatterns::new("/p", &pats(&["!data.csv", "*.csv"]));
    assert!(rules.is_ignored("/p/data.csv", false));
    let rules = CompiledIgnorePatterns::new("/p", &pats(&["*.csv", "!data.csv"]));
    assert!(!rules.is_ignored("/p/data.csv", false));
}

#[test]
fn blank_lines_and_comments_are_skipped() {
    let rules = CompiledIgnorePatterns::new("/p", &pats(&["", "   ", "# *.rs", "  # note", "\t*.tmp  "]));
    assert!(!rules.is_ignored("/p/main.rs", false));
    assert!(rules.is_ignored("/p/x.tmp", false));
}

#[test]
fn a_malformed_pattern_is_left_out_and_the_rest_stands() {
    let rules = CompiledIgnorePatterns::new("/p", &pats(&["*.log", "a/**b", "{unclosed", "*.bak"]));
    assert!(rules.is_ignored("/p/x.log", false));
    assert!(rules.is_ignored("/p/x.bak", false));
    assert!(!rules.is_ignored("/p/x.rs", false));
}

#[test]
fn no_patterns_ignore_nothing() {
    let rules = CompiledIgnorePatterns::new("/p", &Vec::new());
    assert!(!rules.is_ignored("/p/anything.log", false));
    assert_eq!(rules.classify("/p/node_modules", true), MatchKind::NotMatched);
}

#[test]
fn gather_takes_a_path_once() {
    let rules = CompiledIgnorePatterns::new("/p", &pats(&["*.log"]));
    let mut found = Vec::new();
    assert!(gather_valid_items("/p", true, &rules, &mut found, 0, false));
    assert!(!gather_valid_items("/p/a.rs", false, &rules, &mut found, 1, false));
    assert!(!gather_valid_items("/p/a.rs", false, &rules, &mut found, 1, false));
    assert!(!gather_valid_items("/p/x.log", false, &rules, &mut found, 1, false));
    assert_eq!(found.len(), 2);
    assert_eq!(found[1].path, "/p/a.rs");
    assert!(!found[1].is_dir);
}

#[test]
fn gather_stops_at_the_depth_limit_and_on_cancellation() {
    let rules = CompiledIgnorePatterns::new("/p", &Vec::new());
    let mut found = Vec::new();
    assert_eq!(MAX_DEPTH, 30);
    assert!(gather_valid_items("/p/deep", true, &rules, &mut found, 30, false));
    assert!(!gather_valid_items("/p/deeper", true, &rules, &mut found, 31, false));
    assert!(!gather_valid_items("/p/other", true, &rules, &mut found, 0, true));
    assert_eq!(found.len(), 1);
}

#[test]
fn walk_visits_depth_first_in_listing_order() {
    let rules = CompiledIgnorePatterns::new("/p", &Vec::new());
    let (found, stopped) = run_walk(&rules, None);
    assert!(!stopped);
    let paths: Vec<&str> = found.iter().map(|c| c.path.as_str()).collect();
    assert_eq!(
        paths,
        vec![
            "/p",
            "/p/src",
            "/p/src/main.rs",
            "/p/src/debug.log",
            "/p/app.log",
            "/p/node_modules",
            "/p/node_modules/pkg",
            "/p/node_modules/pkg/index.js",
            "/p/README.md",
        ]
    );
}

#[test]
fn walk_stops_when_cancelled_and_keeps_what_it_found() {
    let rules = CompiledIgnorePatterns::new("/p", &Vec::new());
    let (found, stopped) = run_walk(&rules, Some(3));
    assert!(stopped);
    let paths: Vec<&str> = found.iter().map(|c| c.path.as_str()).collect();
    assert_eq!(paths, vec!["/p", "/p/src", "/p/src/main.rs"]);
    let (none, stopped) = run_walk(&rules, Some(0));
    assert!(stopped);
    assert!(none.is_empty());
}

#[test]
fn walk_stays_cancelled() {
    let rules = CompiledIgnorePatterns::new("/p", &Vec::new());
    let mut walk = Walk::start("/p", true);
    assert!(matches!(walk.step(&rules, true), WalkStep::Cancelled));
    walk.supply_children(vec![cand("/p/a", false)]);
    assert!(matches!(walk.step(&rules, false), WalkStep::Cancelled));
    assert!(walk.into_candidates().is_empty());
}

#[test]
fn walk_of_an_ignored_root_finds_nothing() {
    let rules = CompiledIgnorePatterns::new("/", &pats(&["p/"]));
    let mut walk = Walk::start("/p", true);
    assert!(matches!(walk.step(&rules, false), WalkStep::Visited));
    assert!(matches!(walk.step(&rules, false), WalkStep::Finished));
    assert!(walk.into_candidates().is_empty());
}

#[test]
fn walk_of_a_file_root_lists_nothing() {
    let rules = CompiledIgnorePatterns::new("/p", &Vec::new());
    let mut walk = Walk::start("/p/file.txt", false);
    assert!(matches!(walk.step(&rules, false), WalkStep::Visited));
    assert!(matches!(walk.step(&rules, false), WalkStep::Finished));
    assert_eq!(walk.into_candidates().len(), 1);
}

#[test]
fn a_scan_runs_through_its_phases() {
    let (p, a) = advance(ScanPhase::Idle, ScanEvent::Start);
    assert_eq!((p, a), (ScanPhase::Loading, ScanAction::LoadInputs));
    let (p, a) = advance(p, ScanEvent::InputsReady { root_is_dir: true });
    assert_eq!((p, a), (ScanPhase::Enumerating, ScanAction::Traverse));
    let (p, a) = advance(p, ScanEvent::EnumerationFinished { cancelled: false });
    assert_eq!((p, a), (ScanPhase::Computing, ScanAction::ComputeStats));
    let (p, a) = advance(p, ScanEvent::StatsFinished { cancelled: false });
    assert_eq!((p, a), (ScanPhase::Committing, ScanAction::PersistAll));
    let (p, a) = advance(p, ScanEvent::CommitSucceeded);
    assert_eq!((p, a), (ScanPhase::Completed, ScanAction::ReportDone));
    let (p, a) = advance(p, ScanEvent::Acknowledged);
    assert_eq!((p, a), (ScanPhase::Idle, ScanAction::Nothing));
}

#[test]
fn cancellation_after_enumeration_reports_cancelled_once() {
    let events = [
        ScanEvent::Start,
        ScanEvent::InputsReady { root_is_dir: true },
        ScanEvent::EnumerationFinished { cancelled: true },
        ScanEvent::CommitSucceeded,
        ScanEvent::CommitSucceeded,
        ScanEvent::StatsFinished { cancelled: true },
        ScanEvent::Acknowledged,
        ScanEvent::CommitFailed,
    ];
    let mut phase = ScanPhase::Idle;
    let mut reports = Vec::new();
    let mut actions = Vec::new();
    for e in events {
        let (next, action) = advance(phase, e);
        phase = next;
        actions.push(action);
        if matches!(action, ScanAction::ReportDone | ScanAction::ReportCancelled | ScanAction::ReportFailed) {
            reports.push(action);
        }
    }
    assert_eq!(reports, vec![ScanAction::ReportCancelled]);
    assert_eq!(actions[2], ScanAction::PersistCleanupOnly);
    assert_eq!(phase, ScanPhase::Idle);
}

#[test]
fn cancellation_during_stats_stores_nothing() {
    let (p, a) = advance(ScanPhase::Computing, ScanEvent::StatsFinished { cancelled: true });
    assert_eq!((p, a), (ScanPhase::Cancelled, ScanAction::ReportCancelled));
}

#[test]
fn hard_errors_fail_the_scan() {
    assert_eq!(
        advance(ScanPhase::Loading, ScanEvent::InputsReady { root_is_dir: false }),
        (ScanPhase::Failed, ScanAction::ReportFailed)
    );
    assert_eq!(
        advance(ScanPhase::Loading, ScanEvent::StoreFailed),
        (ScanPhase::Failed, ScanAction::ReportFailed)
    );
    assert_eq!(
        advance(ScanPhase::Committing, ScanEvent::CommitFailed),
        (ScanPhase::Failed, ScanAction::ReportFailed)
    );
    assert_eq!(
        advance(ScanPhase::CleaningUp, ScanEvent::CommitFailed),
        (ScanPhase::Failed, ScanAction::ReportFailed)
    );
}

#[test]
fn events_out_of_place_change_nothing() {
    assert_eq!(advance(ScanPhase::Idle, ScanEvent::CommitSucceeded), (ScanPhase::Idle, ScanAction::Nothing));
    assert_eq!(advance(ScanPhase::Enumerating, ScanEvent::Start), (ScanPhase::Enumerating, ScanAction::Nothing));
    assert_eq!(advance(ScanPhase::Completed, ScanEvent::Start), (ScanPhase::Completed, ScanAction::Nothing));
}

#[test]
fn terminal_status_texts() {
    assert_eq!(terminal_status(ScanOutcome::Done, "ignored"), "done");
    assert_eq!(terminal_status(ScanOutcome::Cancelled, ""), "cancelled");
    assert_eq!(terminal_status(ScanOutcome::Failed, "disk full"), "failed: disk full");
    let long: String = std::iter::repeat('é').take(200).collect();
    let status = terminal_status(ScanOutcome::Failed, &long);
    assert_eq!(status.chars().count(), 8 + 150);
    assert!(status.starts_with("failed: é"));
    let exact: String = std::iter::repeat('x').take(150).collect();
    assert_eq!(terminal_status(ScanOutcome::Failed, &exact), format!("failed: {}", exact));
}

#[test]
fn global_patterns_come_before_project_patterns() {
    let merged = merge_patterns(pats(&["*.log", "target/"]), &pats(&["!keep.log"]));
    assert_eq!(merged, vec!["*.log", "target/", "!keep.log"]);
    assert_eq!(merge_patterns(Vec::new(), &Vec::new()), Vec::<String>::new());
}

#[test]
fn global_patterns_are_read_from_the_setting() {
    assert_eq!(resolve_global_patterns(None), Vec::<String>::new());
    assert_eq!(resolve_global_patterns(Some("")), Vec::<String>::new());
    assert_eq!(resolve_global_patterns(Some("[]")), Vec::<String>::new());
    assert_eq!(resolve_global_patterns(Some("not json")), Vec::<String>::new());
    assert_eq!(resolve_global_patterns(Some("[1, 2]")), Vec::<String>::new());
    assert_eq!(
        resolve_global_patterns(Some(r#"["*.log", "node_modules/", "a\"b"]"#)),
        vec!["*.log", "node_modules/", "a\"b"]
    );
}

#[test]
fn built_in_patterns_are_complete_and_distinct() {
    let list = get_hardcoded_default_ignore_patterns();
    assert_eq!(list.len(), 102);
    assert_eq!(list[0], "*-spec.*");
    assert_eq!(list[16], "*.log");
    assert_eq!(list[101], "yarn.lock");
    assert!(list.iter().any(|p| p == "node_modules/"));
    assert!(list.iter().any(|p| p == ".git/"));
    let mut sorted = list.clone();
    sorted.sort();
    sorted.dedup();
    assert_eq!(sorted.len(), 102);
    let rules = CompiledIgnorePatterns::new("/p", &list);
    assert!(rules.is_ignored("/p/node_modules", true));
    assert!(rules.is_ignored("/p/a/b/yarn.lock", false));
    assert!(!rules.is_ignored("/p/src/main.rs", false));
}

#[test]
fn cancellation_signal_is_shared() {
    let token = CancelToken::new();
    assert!(!is_scan_cancelled(&token));
    let other = token.share();
    set_cancel_scan(&other, true);
    assert!(is_scan_cancelled(&token));
    set_cancel_scan(&token, false);
    assert!(!is_scan_cancelled(&other));
}

#[test]
fn a_missing_blank_or_empty_setting_is_seeded() {
    assert!(needs_seeding(None));
    assert!(needs_seeding(Some("")));
    assert!(needs_seeding(Some("  \n")));
    assert!(needs_seeding(Some("[]")));
    assert!(needs_seeding(Some(" [] ")));
    assert!(!needs_seeding(Some("[ ]")));
    assert!(!needs_seeding(Some("[\"*.log\"]")));
    assert!(!needs_seeding(Some("x")));
}

fn project(id: i32, patterns: &[&str]) -> Project {
    Project {
        id,
        title: "t".to_string(),
        root_folder: None,
        ignore_patterns: pats(patterns),
        updated_at: None,
        prefix: String::new(),
    }
}

#[test]
fn a_new_project_without_patterns_takes_the_defaults() {
    let setting = Some("[\"*.log\", \"target/\"]");
    assert_eq!(patterns_to_store(&project(0, &[]), setting), pats(&["*.log", "target/"]));
    assert_eq!(patterns_to_store(&project(-3, &[]), setting), pats(&["*.log", "target/"]));
    assert_eq!(patterns_to_store(&project(0, &["a"]), setting), pats(&["a"]));
    assert_eq!(patterns_to_store(&project(5, &[]), setting), Vec::<String>::new());
    assert_eq!(patterns_to_store(&project(5, &["a", "b"]), setting), pats(&["a", "b"]));
    assert_eq!(patterns_to_store(&project(0, &[]), None), Vec::<String>::new());
    assert_eq!(patterns_to_store(&project(0, &[]), Some("not json")), Vec::<String>::new());
    assert_eq!(patterns_to_store(&project(0, &[]), Some("")), Vec::<String>::new());
}

#[test]
fn each_report_names_its_outcome() {
    assert_eq!(reported_outcome(ScanAction::ReportDone), Some(ScanOutcome::Done));
    assert_eq!(reported_outcome(ScanAction::ReportCancelled), Some(ScanOutcome::Cancelled));
    assert_eq!(reported_outcome(ScanAction::ReportFailed), Some(ScanOutcome::Failed));
    assert_eq!(reported_outcome(ScanAction::Nothing), None);
    assert_eq!(reported_outcome(ScanAction::PersistAll), None);
    assert_eq!(reported_outcome(ScanAction::Traverse), None);
}
