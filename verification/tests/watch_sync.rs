use taskboard::board::{watched_files, RegistryEntry};
use taskboard::sync::{board_url, collect_git_status, is_git_output, parse_u32_exec, status_error};
use taskboard::watcher::{
    batch_effects, compute_watch_targets, path_components, path_file_name, path_is_tracked, plan_rebuild, react_to, same_file,
    WatchAction, WatchEffect,
};

fn entry(id: &str, path: &str, progress_file: &str) -> RegistryEntry {
    RegistryEntry {
        id: id.to_string(),
        name: None,
        path: path.to_string(),
        progress_file: progress_file.to_string(),
        pinned: false,
        added: None,
    }
}

fn text(comps: &[Vec<char>]) -> String {
    let parts: Vec<String> = comps.iter().map(|c| c.iter().collect()).collect();
    match parts.split_first() {
        Some((first, rest)) if first == "/" => format!("/{}", rest.join("/")),
        _ => parts.join("/"),
    }
}

fn targets(registry: &str, entries: &Vec<RegistryEntry>) -> (Vec<String>, Vec<String>) {
    let files = watched_files(entries, None);
    let (ds, fs) = compute_watch_targets(registry, &files);
    (ds.iter().map(|d| text(d)).collect(), fs.iter().map(|f| text(f)).collect())
}

fn has(v: &[String], s: &str) -> bool {
    v.iter().any(|x| x == s)
}

#[test]
fn test_compute_watch_targets_collects_files_and_dirs() {
    let es = vec![entry("voice", "/tmp/w/voice", "PROGRESS.md"), entry("alpha", "/tmp/w/alpha", "PROGRESS.md")];
    let (dirs, files) = targets("/tmp/w/registry.yaml", &es);
    assert!(has(&files, "/tmp/w/registry.yaml"));
    assert!(has(&files, "/tmp/w/voice/AGENTS.md"));
    assert!(has(&files, "/tmp/w/voice/CHANGELOG.md"));
    assert!(has(&files, "/tmp/w/alpha/INDEX.md"));
    assert!(has(&files, "/tmp/w/alpha/PROGRESS.md"));
    assert_eq!(files.len(), 9);
    assert!(has(&dirs, "/tmp/w"));
    assert!(has(&dirs, "/tmp/w/voice"));
    assert!(has(&dirs, "/tmp/w/alpha"));
}

#[test]
fn test_compute_watch_targets_dedups_dirs() {
    let es = vec![entry("a", "/tmp/w/mono", "A.md"), entry("b", "/tmp/w/mono", "B.md")];
    let (dirs, files) = targets("/tmp/w/registry.yaml", &es);
    assert_eq!(files.len(), 6);
    assert_eq!(dirs.len(), 2);
    assert!(has(&dirs, "/tmp/w/mono"));
}

#[test]
fn test_path_is_tracked() {
    let followed = vec![("/tmp/w/PROGRESS.md".to_string(), Some("/private/tmp/w/PROGRESS.md".to_string()))];
    assert!(path_is_tracked("/tmp/w/PROGRESS.md", None, &followed));
    assert!(!path_is_tracked("/tmp/w/OTHER.md", None, &followed));
}

#[test]
fn test_targets_grow_after_registry_adds_project() {
    let mut es = vec![entry("voice", "/tmp/w/voice", "PROGRESS.md")];
    let (_, before) = targets("/tmp/w/registry.yaml", &es);
    assert_eq!(before.len(), 5);
    es.push(entry("beta", "/tmp/w/beta", "PROGRESS.md"));
    let (dirs, after) = targets("/tmp/w/registry.yaml", &es);
    assert_eq!(after.len(), 9);
    assert!(has(&after, "/tmp/w/beta/PROGRESS.md"));
    assert!(has(&after, "/tmp/w/beta/CHANGELOG.md"));
    assert!(has(&dirs, "/tmp/w/beta"));
}

// ───── further cases ─────

#[test]
fn paths_compare_by_components() {
    let c = |s: &str| -> Vec<String> { path_components(&s.chars().collect::<Vec<_>>()).iter().map(|x| x.iter().collect()).collect() };
    assert_eq!(c("/a//b/./c/"), vec!["/", "a", "b", "c"]);
    assert_eq!(c("./a/../b"), vec![".", "a", "..", "b"]);
    assert_eq!(c("a/./b"), vec!["a", "b"]);
    assert!(same_file("/a/b/", "/a//b", None, None));
    assert!(!same_file("/a/b", "/a/c", None, None));
    assert!(same_file("/var/x", "/private/var/x", Some("/private/var/x"), Some("/private/var/x")));
    assert!(!same_file("/var/x", "/private/var/x", None, Some("/private/var/x")));
    let followed = vec![("/var/x".to_string(), Some("/private/var/x".to_string()))];
    assert!(path_is_tracked("/private/var/x", Some("/private/var/x"), &followed));
}

#[test]
fn relative_and_root_files_give_directories_once() {
    let files = vec!["a.md".to_string(), "/top.md".to_string(), "/r/x.md".to_string()];
    let (ds, fs) = compute_watch_targets("/r/registry.yaml", &files);
    let dirs: Vec<String> = ds.iter().map(|d| text(d)).collect();
    assert_eq!(fs.len(), 4);
    assert_eq!(dirs.len(), 3);
    assert!(has(&dirs, "/r"));
    assert!(has(&dirs, "/"));
    assert!(has(&dirs, ""));
}

#[test]
fn git_status_from_command_outputs() {
    let s = collect_git_status("p", Some("true\n"), Some("abc123\n"), Some(" M a.txt\n"), Some("2\t0\n"));
    assert_eq!(s.id, "p");
    assert_eq!(s.head, "abc123");
    assert!(s.is_git && s.dirty && s.behind && !s.ahead);
    let s = collect_git_status("p", Some("true"), None, Some(""), Some("0\t3"));
    assert!(s.is_git && !s.dirty && !s.behind && s.ahead);
    assert_eq!(s.head, "");
    let s = collect_git_status("p", Some("false"), Some("abc"), Some("M"), Some("1\t1"));
    assert!(!s.is_git && !s.dirty && !s.ahead && !s.behind);
    assert_eq!(s.head, "");
    let s = collect_git_status("p", None, None, None, None);
    assert!(!s.is_git);
    let s = collect_git_status("p", Some(" true "), None, None, Some("x\t99999999999"));
    assert!(s.is_git && !s.ahead && !s.behind);
}

#[test]
fn counts_parse_like_u32() {
    let p = |s: &str| parse_u32_exec(&s.chars().collect::<Vec<_>>());
    for s in ["0", "+7", "4294967295", "007", "", "+", "-1", "4294967296", "1 ", "x"] {
        assert_eq!(p(s), s.parse::<u32>().ok(), "{s:?}");
    }
    assert!(is_git_output(Some("true\n")));
    assert!(!is_git_output(Some("True")));
}

fn plain(p: &str) -> (String, Option<String>) {
    (p.to_string(), None)
}

#[test]
fn reaction_to_changed_paths() {
    let followed = vec![plain("/r/registry.yaml"), plain("/p/AGENTS.md")];
    let registry = plain("/r/registry.yaml");
    assert!(matches!(react_to(&vec![plain("/p/other.md")], &followed, registry.clone()), WatchAction::Ignore));
    assert!(matches!(react_to(&vec![], &followed, registry.clone()), WatchAction::Ignore));
    assert!(matches!(
        react_to(&vec![plain("/p/other.md"), plain("/p//AGENTS.md")], &followed, registry.clone()),
        WatchAction::Refresh
    ));
    assert!(matches!(
        react_to(&vec![plain("/r/registry.yaml")], &followed, registry.clone()),
        WatchAction::RebuildAndRefresh
    ));
    let via_link = vec![("/link/registry.yaml".to_string(), Some("/r/registry.yaml".to_string()))];
    let followed_c = vec![("/r/registry.yaml".to_string(), Some("/r/registry.yaml".to_string()))];
    let registry_c = ("/r/registry.yaml".to_string(), Some("/r/registry.yaml".to_string()));
    assert!(matches!(react_to(&via_link, &followed_c, registry_c), WatchAction::RebuildAndRefresh));
}

#[test]
fn rebuild_plan_is_a_difference_both_ways() {
    let c = |s: &str| path_components(&s.chars().collect::<Vec<_>>());
    let desired = vec![c("/a"), c("/b"), c("/c")];
    let watched = vec![c("/c"), c("/d"), c("/a/")];
    let (add, remove) = plan_rebuild(&desired, &watched);
    assert_eq!(add, vec![c("/b")]);
    assert_eq!(remove, vec![c("/d")]);
    let (add, remove) = plan_rebuild(&desired, &vec![]);
    assert_eq!(add, desired);
    assert!(remove.is_empty());
}

#[test]
fn remote_board_settings() {
    assert_eq!(board_url(None), None);
    assert_eq!(board_url(Some("  \t")), None);
    assert_eq!(board_url(Some(" https://x/board.json")), Some(" https://x/board.json".to_string()));
    assert_eq!(status_error(404), "服务器返回 404");
    assert_eq!(status_error(0), "服务器返回 0");
}

fn kinds(v: &[WatchEffect]) -> Vec<&'static str> {
    v.iter()
        .map(|e| match e {
            WatchEffect::Rebuild => "rebuild",
            WatchEffect::Emit => "emit",
        })
        .collect()
}

#[test]
fn effects_of_a_run_of_batches() {
    let followed = vec![plain("/r/registry.yaml"), plain("/p/AGENTS.md")];
    let registry = plain("/r/registry.yaml");
    let run = [
        None,
        Some(vec![plain("/p/other.md")]),
        Some(vec![plain("/p/AGENTS.md")]),
        Some(vec![plain("/r/registry.yaml"), plain("/p/AGENTS.md")]),
    ];
    let all: Vec<Vec<&str>> =
        run.iter().map(|b| kinds(&batch_effects(b.as_ref(), &followed, registry.clone()))).collect();
    assert_eq!(all, vec![vec![], vec![], vec!["emit"], vec!["rebuild", "emit"]]);
}

#[test]
fn file_names_like_std() {
    let f = |s: &str| path_file_name(&s.chars().collect::<Vec<_>>()).map(|v| v.into_iter().collect::<String>());
    for s in ["/a/b", "/a/b/", "a", "/", ".", "..", "/a/..", "./x", "a/./", "", "/tmp/语音 管线//"] {
        let std_name = std::path::Path::new(s).file_name().map(|n| n.to_string_lossy().to_string());
        assert_eq!(f(s), std_name, "{s:?}");
    }
}
