use taskboard::board::{
    assemble_board, build_summary, compute_progress_from_stages, find_project, parse_agents_meta,
    parse_entry, project_detail, sort_cards, watched_files, BoardInput, Progress, ProjectCard,
    ProjectFiles, RegistryEntry, RegistryLoad, StageItem,
};
use taskboard::registry::{read_registry, RegistryText};

fn entry(id: &str, name: Option<&str>, path: &str, pinned: bool) -> RegistryEntry {
    RegistryEntry {
        id: id.to_string(),
        name: name.map(|n| n.to_string()),
        path: path.to_string(),
        progress_file: "PROGRESS.md".to_string(),
        pinned,
        added: None,
    }
}

fn trio(agents: &str, changelog: &str, index: &str) -> ProjectFiles {
    ProjectFiles {
        root_exists: true,
        agents: agents.to_string(),
        index: index.to_string(),
        changelog: changelog.to_string(),
    }
}

fn empty_dir() -> ProjectFiles {
    trio("", "", "")
}

fn absent_dir() -> ProjectFiles {
    ProjectFiles { root_exists: false, ..empty_dir() }
}

fn percent(p: &Progress) -> f64 {
    p.done as f64 * 100.0 / p.total as f64
}

fn find<'a>(cards: &'a [ProjectCard], id: &str) -> &'a ProjectCard {
    cards.iter().find(|c| c.id == id).unwrap()
}

#[test]
fn test_load_board_three_good_one_bad() {
    let ps = vec![
        (
            entry("voice-pipeline", Some("语音管线"), "/tmp/t/voice", false),
            trio(
                "---\nstatus: active\ndesc: 语音管线\n---\n",
                "## 项目阶段\n- [x] 需求与架构\n- [x] ASR 接入\n- [x] barge-in 状态机\n- [ ] 联调打包\n\n## 2026-06-13 #feat - x\n",
                "## 当前接力点 (Handoff)\n- 打断信号去抖逻辑\n",
            ),
        ),
        (
            entry("alpha", Some("Alpha"), "/tmp/t/alpha", false),
            trio("---\nstatus: done\n---\n", "## 项目阶段\n- [x] a\n- [x] b\n\n## 2026-06-10 #feat - x\n", ""),
        ),
        (
            entry("beta", Some("Beta"), "/tmp/t/beta", true),
            trio(
                "---\nstatus: paused\n---\n",
                "## 项目阶段\n- [ ] 一\n- [ ] 二\n- [ ] 三\n\n## 2026-06-01 #chore - x\n",
                "",
            ),
        ),
        (entry("broken", Some("坏项目"), "/tmp/t/broken", false), empty_dir()),
    ];
    let board = assemble_board(BoardInput::Projects(ps), None);
    assert!(board.registry_error.is_none());
    assert_eq!(board.projects.len(), 4);
    assert_eq!(board.summary.active, 1);
    assert_eq!(board.summary.paused, 1);
    assert_eq!(board.summary.done, 1);
    assert_eq!(board.summary.error, 1);
    assert_eq!(board.projects.first().unwrap().id, "beta", "pinned 应置顶");
    assert_eq!(board.projects.last().unwrap().id, "alpha", "done 应排末尾");
    let voice = find(&board.projects, "voice-pipeline");
    assert!(voice.error.is_none());
    assert!((percent(&voice.progress) - 75.0).abs() < 1e-9);
    assert_eq!(voice.stages.len(), 4);
    assert_eq!(voice.next, vec!["打断信号去抖逻辑".to_string()]);
    let broken = find(&board.projects, "broken");
    assert_eq!(broken.error.as_ref().unwrap().kind, "missing");
}

#[test]
fn test_load_project_detail_from_trio() {
    let e = entry("voice-pipeline", Some("语音管线"), "/tmp/t/voice", false);
    let files = trio(
        "---\nstatus: active\ndesc: 语音\n---\n",
        "## 项目阶段\n- [x] a\n- [ ] b\n\n## 2026-06-13 #feat - x\n",
        "## 当前接力点 (Handoff)\n- n1\n- n2\n- n3\n- ⚠ 阻塞：等待上游接口\n",
    );
    let load = RegistryLoad::Loaded(vec![entry("voice-pipeline", Some("语音管线"), "/tmp/t/voice", false)]);
    assert_eq!(find_project(&load, "voice-pipeline"), Ok(0));
    let detail = project_detail(&e, None, &files, "");
    assert!(detail.card.error.is_none());
    assert_eq!(detail.card.next.len(), 3);
    assert_eq!(detail.card.blocked_by, vec!["等待上游接口".to_string()]);
    assert_eq!(detail.stages.len(), 2);
    assert!(find_project(&load, "ghost").is_err());
}

#[test]
fn test_load_project_missing_file_empty_body_no_panic() {
    let e = entry("noprog", None, "/tmp/t/noprog", false);
    let detail = project_detail(&e, None, &empty_dir(), "");
    assert_eq!(detail.card.error.as_ref().unwrap().kind, "missing");
    assert_eq!(detail.body, "");
    assert_eq!(detail.intro, "");
    assert_eq!(detail.arch_mermaid, "");
    assert!(detail.stages.is_empty());
}

#[test]
fn test_parse_agents_meta() {
    let m = parse_agents_meta("---\ntrio: standard-v2\nstatus: paused\ndesc: 一句话描述\n---\n# 正文");
    assert_eq!(m.status.as_deref(), Some("paused"));
    assert_eq!(m.desc, "一句话描述");
    let m2 = parse_agents_meta("# 没有 frontmatter");
    assert!(m2.status.is_none());
    assert_eq!(m2.desc, "");
}

#[test]
fn test_compute_progress_from_stages() {
    let s = |done: bool| StageItem { name: "x".into(), desc: "".into(), done };
    assert_eq!(percent(&compute_progress_from_stages(&[s(true), s(true), s(false), s(false)], "active")), 50.0);
    assert_eq!(percent(&compute_progress_from_stages(&[s(false)], "done")), 100.0);
    assert_eq!(percent(&compute_progress_from_stages(&[], "active")), 0.0);
}

#[test]
fn test_parse_entry_prefers_trio_over_progress() {
    let e = entry("v", Some("V"), "/tmp/t/v", false);
    let files = trio(
        "---\nstatus: active\ndesc: 新描述\n---\n",
        "## 项目阶段\n- [x] 一 — d1\n- [ ] 二\n\n## 2026-06-14 #feat - x\n",
        "## 当前接力点 (Handoff)\n- 做二\n",
    );
    let board = assemble_board(BoardInput::Projects(vec![(e, files)]), None);
    let c = &board.projects[0];
    assert!(c.error.is_none());
    assert_eq!(c.status, "active");
    assert_eq!(c.desc, "新描述");
    assert_eq!(percent(&c.progress), 50.0);
    assert_eq!(c.next, vec!["做二".to_string()]);
    assert_eq!(c.updated, "2026-06-14");
}

#[test]
fn test_load_project_reads_trio_blocks() {
    let e = entry("voice", Some("V"), "/tmp/t/voice", false);
    let files = trio(
        "---\nstatus: active\n---\n",
        "## 项目阶段\n- [x] 阶段一 — 完成了\n- [ ] 阶段二\n\n## 2026-06-13 #feat - 流水\n",
        "## 项目简介\n一句话简介。\n\n## 架构图\n```mermaid\nflowchart TD\n  A --> B\n```\n",
    );
    let d = project_detail(&e, None, &files, "");
    assert_eq!(d.intro, "一句话简介。");
    assert_eq!(d.arch_mermaid, "flowchart TD\n  A --> B");
    assert_eq!(d.stages.len(), 2);
    assert!(d.stages[0].done);
    assert!(!d.stages[1].done);
}

#[test]
fn test_unconfigured_project_is_missing() {
    let e = entry("noprog", Some("NoProg"), "/tmp/t/noprog", false);
    let board = assemble_board(BoardInput::Projects(vec![(e, empty_dir())]), None);
    assert_eq!(board.projects[0].error.as_ref().unwrap().kind, "missing");
}

#[test]
fn test_missing_project_path() {
    let e = entry("ghost", Some("Ghost"), "/tmp/t/不存在的目录", false);
    let board = assemble_board(BoardInput::Projects(vec![(e, absent_dir())]), None);
    let err = board.projects[0].error.as_ref().unwrap();
    assert_eq!(err.kind, "missing");
    assert_eq!(err.message, "项目路径不存在: /tmp/t/不存在的目录");
}

#[test]
fn test_broken_agents_frontmatter_no_panic() {
    let e = entry("bad", None, "/tmp/t/bad", false);
    let files = trio(
        "---\nstatus: : : broken\n  bad indent\n---\n",
        "## 项目阶段\n- [x] a\n- [ ] b\n\n## 2026-06-13 #feat - x\n",
        "",
    );
    let board = assemble_board(BoardInput::Projects(vec![(e, files)]), None);
    let c = &board.projects[0];
    assert!(c.error.is_none(), "frontmatter 损坏不应崩，按阶段表降级渲染");
    assert_eq!(c.status, "active");
    assert!((percent(&c.progress) - 50.0).abs() < 1e-9);
}

#[test]
fn test_empty_registry_returns_empty_board() {
    let board = assemble_board(BoardInput::Projects(vec![]), None);
    assert!(board.projects.is_empty());
    assert!(board.registry_error.is_none());
}

#[test]
fn test_nonexistent_registry_is_empty_not_error() {
    let board = assemble_board(BoardInput::Absent, None);
    assert!(board.projects.is_empty());
    assert!(board.registry_error.is_none());
}

#[test]
fn test_broken_registry_yaml_sets_registry_error() {
    let err = read_registry(&RegistryText::Text("version: 1\nprojects: [ this is : : broken\n".into()))
        .unwrap_err()
        .replacen("registry 解析失败: ", "", 1);
    let board = assemble_board(BoardInput::ParseFailed(err.clone()), None);
    assert!(board.registry_error.is_some());
    assert!(board.projects.is_empty());
    assert_eq!(board.registry_error.unwrap(), format!("registry.yaml 解析失败: {err}"));
}

#[test]
fn test_collect_watched_files() {
    let mut alpha = entry("alpha", None, "/tmp/t/alpha", false);
    alpha.progress_file = "custom.md".to_string();
    let es = vec![entry("voice", None, "/tmp/t/voice", false), alpha];
    let paths = watched_files(&es, None);
    assert_eq!(paths.len(), 8);
    for f in ["AGENTS.md", "INDEX.md", "CHANGELOG.md", "PROGRESS.md"] {
        assert!(paths.contains(&format!("/tmp/t/voice/{f}")));
    }
    assert!(paths.contains(&"/tmp/t/alpha/custom.md".to_string()));
}

#[test]
fn test_collect_watched_files_nonexistent_registry_empty() {
    assert!(watched_files(&vec![], None).is_empty());
}

// ───── further cases ─────

#[test]
fn read_failure_is_reported() {
    let board = assemble_board(BoardInput::ReadFailed("permission denied".to_string()), None);
    assert!(board.projects.is_empty());
    assert_eq!(board.registry_error.unwrap(), "读取 registry 失败: permission denied");
}

#[test]
fn find_project_errors() {
    assert_eq!(find_project(&RegistryLoad::Absent, "x"), Err("registry 不存在".to_string()));
    assert_eq!(
        find_project(&RegistryLoad::ReadFailed("io".into()), "x"),
        Err("读取 registry 失败: io".to_string())
    );
    assert_eq!(
        find_project(&RegistryLoad::ParseFailed("bad".into()), "x"),
        Err("registry.yaml 解析失败: bad".to_string())
    );
    let load = RegistryLoad::Loaded(vec![
        entry("a", None, "/a", false),
        entry("b", None, "/b", false),
        entry("b", None, "/b2", false),
    ]);
    assert_eq!(find_project(&load, "b"), Ok(1));
    assert_eq!(find_project(&load, "c"), Err("未找到项目: c".to_string()));
}

#[test]
fn card_fields_with_home_and_degraded_defaults() {
    let mut e = entry("p", None, "~/proj", true);
    e.added = Some("2026-01-02".to_string());
    let c = parse_entry(&e, Some("/home/u"), &empty_dir());
    assert_eq!(c.name, "p");
    assert_eq!(c.path, "/home/u/proj");
    assert_eq!(c.progress_path, "/home/u/proj/PROGRESS.md");
    assert_eq!(c.status, "unknown");
    assert_eq!(c.updated, "2026-01-02");
    assert_eq!(c.current_stage, 0);
    assert_eq!(percent(&c.progress), 0.0);
    assert!(c.error.as_ref().unwrap().message.starts_with("未接入看板"));

    let files = trio("", "## 项目阶段\n- [x] a\n- [x] b\n- [ ] c\n", "");
    let c2 = parse_entry(&e, Some("/home/u"), &files);
    assert!(c2.error.is_none());
    assert_eq!(c2.status, "active");
    assert_eq!(c2.current_stage, 3);
    assert_eq!(c2.stages, vec!["a".to_string(), "b".to_string(), "c".to_string()]);
    assert_eq!(c2.updated, "");
}

#[test]
fn sort_is_stable_by_done_pinned_name() {
    let mk = |id: &str, name: &str, status: &str, pinned: bool| {
        let e = entry(id, Some(name), "/x", pinned);
        let agents = format!("---\nstatus: {status}\n---\n");
        parse_entry(&e, None, &trio(&agents, "", ""))
    };
    let mut cards = vec![
        mk("1", "b", "done", true),
        mk("2", "b", "active", false),
        mk("3", "a", "paused", false),
        mk("4", "c", "active", true),
        mk("5", "b", "active", false),
    ];
    sort_cards(&mut cards);
    let ids: Vec<&str> = cards.iter().map(|c| c.id.as_str()).collect();
    assert_eq!(ids, vec!["4", "3", "2", "5", "1"]);
    let s = build_summary(&cards);
    assert_eq!((s.active, s.paused, s.done, s.error), (3, 1, 1, 0));
}

#[test]
fn detail_body_skips_frontmatter() {
    let e = entry("v", None, "/x", false);
    let d = project_detail(&e, None, &empty_dir(), "---\na: 1\n---\n正文\n");
    assert_eq!(d.body, "正文\n");
}
