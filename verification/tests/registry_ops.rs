use taskboard::dates::civil_from_days;
use taskboard::sync::detect_github;
use taskboard::registry::{
    add_project_to, decimal, kebab_of_lowered, format_date, kebab_case, looks_like_iso_date, needs_quote,
    parses_as_float, read_registry, registry_from_yaml, remove_project_from, render_registry,
    today_iso_from, yaml_scalar, PathFacts, ProjectEntry, RegistryDoc, RegistryText,
};
use taskboard::yaml::Yaml;

fn cs(s: &str) -> Vec<char> {
    s.chars().collect()
}

fn st(v: Vec<char>) -> String {
    v.into_iter().collect()
}

fn facts(abs: &str) -> PathFacts {
    PathFacts { exists: true, is_dir: true, abs: abs.to_string() }
}

fn empty() -> Result<RegistryDoc, String> {
    read_registry(&RegistryText::Absent)
}

fn reread(doc: &RegistryDoc) -> Result<RegistryDoc, String> {
    read_registry(&RegistryText::Text(render_registry(doc)))
}

fn ids(doc: &RegistryDoc) -> Vec<String> {
    doc.projects.iter().map(|p| p.id.clone()).collect()
}

fn paths(doc: &RegistryDoc) -> Vec<String> {
    doc.projects.iter().map(|p| p.path.clone()).collect()
}

#[test]
fn test_kebab_case_matches_cra() {
    assert_eq!(kebab_case("Voice Pipeline"), "voice-pipeline");
    assert_eq!(kebab_case("My_Cool.Project!!"), "my-cool-project");
    assert_eq!(kebab_case("  --weird-- "), "weird");
    assert_eq!(kebab_case("语音管线"), "语音管线");
    assert_eq!(kebab_case("@@@"), "project");
}

#[test]
fn test_add_only_registers_no_file() {
    let (doc, r) =
        add_project_to(empty(), "/tmp/t/voice", None, &facts("/tmp/t/voice"), &vec![], None, "2026-06-14", None, None)
            .unwrap();
    assert!(!r.created_template, "PROGRESS.md 已退役，add 不再建文件");
    assert_eq!(r.id, "voice");
    assert_eq!(r.name, "voice");
    assert_eq!(r.path, "/tmp/t/voice");
    let back = reread(&doc).unwrap();
    assert_eq!(ids(&back), vec!["voice".to_string()]);
    assert_eq!(back.projects[0].added, "2026-06-14");
    assert_eq!(back.projects[0].progress_file, "PROGRESS.md");
    assert!(!back.projects[0].pinned);
}

#[test]
fn test_add_duplicate_path_errors() {
    let (doc, _) =
        add_project_to(empty(), "/tmp/t/dup", None, &facts("/tmp/t/dup"), &vec![], None, "2026-06-14", None, None).unwrap();
    let registered = paths(&doc);
    let err = add_project_to(Ok(doc), "/tmp/t/dup", None, &facts("/tmp/t/dup"), &registered, None, "2026-06-14", None, None)
        .unwrap_err();
    assert!(err.contains("已登记"), "got {err}");
    assert_eq!(err, "该路径已登记(id=dup): /tmp/t/dup");
}

#[test]
fn test_remove_only_touches_registry() {
    let (doc, r) = add_project_to(
        empty(),
        "/tmp/t/keepfiles",
        None,
        &facts("/tmp/t/keepfiles"),
        &vec![],
        None,
        "2026-06-14",
        None,
        None,
    )
    .unwrap();
    let after = remove_project_from(Ok(doc), &r.id).unwrap();
    assert!(after.projects.is_empty());
    assert_eq!(render_registry(&after), "version: 1\nprojects: []\n");
    assert_eq!(remove_project_from(Ok(after), "ghost").unwrap_err(), "未找到 id: ghost");
}

#[test]
fn test_atomic_write_roundtrip_field_order() {
    let (doc, _) = add_project_to(
        empty(),
        "/tmp/t/order",
        None,
        &facts("/tmp/t/order"),
        &vec![],
        Some("订单系统"),
        "2026-06-14",
        None,
        None,
    )
    .unwrap();
    let raw = render_registry(&doc);
    assert!(raw.starts_with("version: 1\nprojects:\n"));
    let pos = |k: &str| raw.find(k).unwrap();
    assert!(pos("id:") < pos("name:"));
    assert!(pos("name:") < pos("path:"));
    assert!(pos("path:") < pos("progress_file:"));
    assert!(pos("progress_file:") < pos("pinned:"));
    assert!(pos("pinned:") < pos("added:"));
    assert!(raw.contains("name: 订单系统"));
    assert_eq!(
        raw,
        "version: 1\nprojects:\n- id: order\n  name: 订单系统\n  path: /tmp/t/order\n  progress_file: PROGRESS.md\n  pinned: false\n  added: '2026-06-14'\n"
    );
}

// ───── further cases ─────

#[test]
fn add_errors_for_missing_path_and_file() {
    let missing = PathFacts { exists: false, is_dir: false, abs: "/h/nope".into() };
    assert_eq!(
        add_project_to(empty(), "~/nope", Some("/h"), &missing, &vec![], None, "d", None, None).unwrap_err(),
        "路径不存在: /h/nope"
    );
    let file = PathFacts { exists: true, is_dir: false, abs: "/h/f.txt".into() };
    assert_eq!(
        add_project_to(empty(), "~/f.txt", Some("/h"), &file, &vec![], None, "d", None, None).unwrap_err(),
        "不是目录: /h/f.txt"
    );
    let broken = read_registry(&RegistryText::Unreadable("denied".into()));
    assert_eq!(
        add_project_to(broken, "/x", None, &facts("/x"), &vec![], None, "d", None, None).unwrap_err(),
        "读取 registry 失败: denied"
    );
}

#[test]
fn add_makes_ids_unique_and_keeps_order() {
    let (d1, r1) = add_project_to(empty(), "/a/App", None, &facts("/a/App"), &vec![], None, "d", None, None).unwrap();
    let reg = paths(&d1);
    let (d2, r2) = add_project_to(Ok(d1), "/b/app", None, &facts("/b/app"), &reg, Some("  "), "d", None, None).unwrap();
    let reg = paths(&d2);
    let (d3, r3) = add_project_to(Ok(d2), "/c/APP!", None, &facts("/c/APP!"), &reg, Some("第三"), "d", None, None).unwrap();
    assert_eq!((r1.id.as_str(), r2.id.as_str(), r3.id.as_str()), ("app", "app-2", "app-3"));
    assert_eq!(r2.name, "app");
    assert_eq!(r3.name, "第三");
    assert_eq!(ids(&d3), vec!["app", "app-2", "app-3"]);
    let back = remove_project_from(Ok(d3), "app-2").unwrap();
    assert_eq!(ids(&back), vec!["app", "app-3"]);
}

#[test]
fn remove_undoes_add_on_values() {
    let text = "version: 3\nprojects:\n- id: x\n  name: X\n  path: /x\n  pinned: true\n";
    let before = read_registry(&RegistryText::Text(text.to_string())).unwrap();
    let before_text = render_registry(&before);
    let reg = paths(&before);
    let (after, r) = add_project_to(Ok(before), "/y/x", None, &facts("/y/x"), &reg, None, "d", None, None).unwrap();
    assert_eq!(r.id, "x-2");
    let undone = remove_project_from(Ok(after), &r.id).unwrap();
    assert_eq!(render_registry(&undone), before_text);
}

#[test]
fn read_registry_cases() {
    let d = read_registry(&RegistryText::Absent).unwrap();
    assert_eq!((d.version, d.projects.len()), (1, 0));
    let d = read_registry(&RegistryText::Text("".into())).unwrap();
    assert_eq!((d.version, d.projects.len()), (1, 0));
    assert_eq!(
        read_registry(&RegistryText::Text("- a\n- b\n".into())).unwrap_err(),
        "registry 格式异常，期望映射"
    );
    assert_eq!(
        read_registry(&RegistryText::Text("projects:\n  - plain\n".into())).unwrap_err(),
        "registry 的某个 project 不是映射"
    );
    let e = read_registry(&RegistryText::Text("projects: [ : : broken\n".into())).unwrap_err();
    assert!(e.starts_with("registry 解析失败: "), "got {e}");
    let d = read_registry(&RegistryText::Text(
        "projects:\n  - id: a\n    pinned: yes\n    progress_file: 7\n".into(),
    ))
    .unwrap();
    let p: &ProjectEntry = &d.projects[0];
    assert_eq!((p.id.as_str(), p.name.as_str(), p.path.as_str()), ("a", "", ""));
    assert_eq!(p.progress_file, "PROGRESS.md");
    assert!(!p.pinned);
}

#[test]
fn registry_from_parsed_document() {
    let entry = Yaml::Mapping(vec![
        (Some("id".to_string()), Yaml::Str("q".to_string())),
        (None, Yaml::Str("ignored".to_string())),
        (Some("pinned".to_string()), Yaml::Tagged(Box::new(Yaml::Bool(true)))),
    ]);
    let v = Yaml::Mapping(vec![
        (Some("version".to_string()), Yaml::Number(Some(2))),
        (Some("projects".to_string()), Yaml::Sequence(vec![entry])),
    ]);
    let d = registry_from_yaml(&v).unwrap();
    assert_eq!(d.version, 2);
    assert!(d.projects[0].pinned);
}

#[test]
fn scalars_are_quoted_when_yaml_would_misread_them() {
    for s in [
        "", "true", "No", "~", "null", "12", "1.5e3", "-inf", "NaN", "2026-06-14", "-x", "#c", "a: b",
        "end:", "a #b", " lead", "'q'",
    ] {
        assert!(needs_quote(&cs(s)), "{s:?} should be quoted");
    }
    for s in ["voice", "订单系统", "/tmp/a b", "a:b", "a#b", "1.2.3", "2026-6-14", "inf1"] {
        assert!(!needs_quote(&cs(s)), "{s:?} should stay plain");
    }
    assert_eq!(st(yaml_scalar(&cs("it's"))), "it's");
    assert_eq!(st(yaml_scalar(&cs("'it's'"))), "'''it''s'''");
    assert_eq!(st(yaml_scalar(&cs(""))), "''");
}

#[test]
fn float_syntax_follows_std_parse() {
    for s in ["0", "+1", "-2.", ".5", "1e10", "1E-3", "inf", "-Infinity", "NaN", "+nan"] {
        assert!(parses_as_float(&cs(s)), "{s}");
        assert!(s.parse::<f64>().is_ok());
    }
    for s in ["", ".", "e5", "1e", "1_000", "0x10", "infin", " 1", "--1"] {
        assert!(!parses_as_float(&cs(s)), "{s}");
        assert!(s.parse::<f64>().is_err());
    }
}

#[test]
fn iso_date_shape() {
    assert!(looks_like_iso_date(&cs("2026-06-14")));
    assert!(!looks_like_iso_date(&cs("2026-6-14")));
    assert!(!looks_like_iso_date(&cs("2026/06/14")));
    assert!(!looks_like_iso_date(&cs("２026-06-14")));
}

#[test]
fn dates_from_unix_days() {
    assert_eq!(civil_from_days(0), (1970, 1, 1));
    assert_eq!(civil_from_days(59), (1970, 3, 1));
    assert_eq!(civil_from_days(11016), (2000, 2, 29));
    assert_eq!(civil_from_days(20618), (2026, 6, 14));
    assert_eq!(civil_from_days(-1), (1969, 12, 31));
    assert_eq!(civil_from_days(-719468), (0, 3, 1));
    assert_eq!(st(format_date(2026, 6, 4)), "2026-06-04");
    assert_eq!(st(format_date(-5, 1, 1)), "-005-01-01");
    assert_eq!(st(decimal(0)), "0");
    assert_eq!(st(decimal(340282366920938463463374607431768211455)), "340282366920938463463374607431768211455");
}

#[test]
fn today_prefers_printed_local_date() {
    assert_eq!(today_iso_from(Some("2026-06-14\n"), 0), "2026-06-14");
    assert_eq!(today_iso_from(Some("garbage"), 86400 * 20618 + 5), "2026-06-14");
    assert_eq!(today_iso_from(None, 0), "1970-01-01");
}

#[test]
fn directory_name_comes_from_the_resolved_directory() {
    let (_, r) = add_project_to(empty(), "~/work/语音 管线/", Some("/h"), &facts("/h/work/语音 管线"), &vec![], None, "d", None, None)
        .unwrap();
    assert_eq!((r.id.as_str(), r.name.as_str()), ("语音-管线", "语音 管线"));
    let (_, r) = add_project_to(empty(), "/a/b/..", None, &facts("/a"), &vec![], None, "d", None, None).unwrap();
    assert_eq!((r.id.as_str(), r.name.as_str()), ("a", "a"));
    let (_, r) = add_project_to(empty(), ".", None, &facts("/tmp/x"), &vec![], None, "d", None, None).unwrap();
    assert_eq!((r.id.as_str(), r.name.as_str(), r.path.as_str()), ("x", "x", "/tmp/x"));
    let (_, r) = add_project_to(empty(), "/links/alias", None, &facts("/real/My Repo"), &vec![], None, "d", None, None)
        .unwrap();
    assert_eq!((r.id.as_str(), r.name.as_str()), ("my-repo", "My Repo"));
    let (_, r) = add_project_to(empty(), "/", None, &facts("/"), &vec![], Some("根"), "d", None, None).unwrap();
    assert_eq!((r.id.as_str(), r.name.as_str()), ("project", "根"));
}

fn read_back(s: &str) -> Option<String> {
    let text = format!("projects:\n- id: x\n  name: {}\n", st(yaml_scalar(&cs(s))));
    read_registry(&RegistryText::Text(text)).ok().map(|d| d.projects[0].name.clone())
}

#[test]
fn written_scalars_read_back_through_yaml() {
    for s in [
        "plain", "订单系统", "", "true", "NO", "null", "~", "12", "1e3", "2026-06-14", "it's", "'quoted'",
        "-dash", "a: b", "ends:", "x #y", " lead", "#hash", "[list]", "{map}", "*ref", "&anchor", "!tag",
        "|bar", ">gt", "%pct", "@at", "`tick", "\"dq", ",comma", "?q", "/路径/中文 目录",
    ] {
        assert_eq!(read_back(s).as_deref(), Some(s), "{s:?}");
    }
}

#[test]
fn rendered_registry_reads_back() {
    let text = "version: 1\nprojects:\n- id: a\n  name: 'true'\n  path: '/x: y'\n  progress_file: P.md\n  pinned: true\n  added: '2026-01-01'\n";
    let doc = read_registry(&RegistryText::Text(text.to_string())).unwrap();
    assert_eq!(render_registry(&doc), text);
    let back = reread(&doc).unwrap();
    assert_eq!(back.projects[0].name, "true");
    assert_eq!(back.projects[0].path, "/x: y");
    assert_eq!(back.projects[0].added, "2026-01-01");
    assert!(back.projects[0].pinned);
}

#[test]
fn github_anchor_from_remote_and_branch() {
    let g = |u: &str, b: &str| detect_github(Some(u), Some(b));
    assert_eq!(g("git@github.com:owner/repo.git\n", "main\n").as_deref(), Some("owner/repo@main"));
    assert_eq!(g("https://github.com/xinxin6623/tasktab", "dev").as_deref(), Some("xinxin6623/tasktab@dev"));
    assert_eq!(g("https://github.com/o/r.git/", "feat/x").as_deref(), Some("o/r@feat/x"));
    assert_eq!(g("ssh://git@github.com/o/r.git", "main").as_deref(), Some("o/r@main"));
    assert_eq!(g("https://gitlab.com/o/r.git", "main"), None);
    assert_eq!(g("git@github.com:o/r.git", "HEAD"), None);
    assert_eq!(g("git@github.com:o/r.git", "  "), None);
    assert_eq!(g("https://github.com/o", "main"), None);
    assert_eq!(g("https://github.com/o/r/extra", "main"), None);
    assert_eq!(detect_github(None, Some("main")), None);
    assert_eq!(detect_github(Some("git@github.com:o/r.git"), None), None);
}

#[test]
fn add_records_github_and_keeps_it_on_rewrites() {
    let text = "version: 1\nprojects:\n- id: old\n  name: Old\n  path: /old\n  progress_file: PROGRESS.md\n  pinned: false\n  added: '2026-01-01'\n  github: me/old@main\n";
    let before = read_registry(&RegistryText::Text(text.to_string())).unwrap();
    assert_eq!(before.projects[0].github.as_deref(), Some("me/old@main"));
    assert_eq!(render_registry(&before), text);
    let reg = paths(&before);
    let (after, r) = add_project_to(
        Ok(before),
        "/w/voice",
        None,
        &facts("/w/voice"),
        &reg,
        None,
        "2026-06-18",
        Some("git@github.com:me/voice.git\n"),
        Some("main\n"),
    )
    .unwrap();
    assert_eq!(r.id, "voice");
    let written = render_registry(&after);
    assert_eq!(
        written,
        format!("{text}- id: voice\n  name: voice\n  path: /w/voice\n  progress_file: PROGRESS.md\n  pinned: false\n  added: '2026-06-18'\n  github: me/voice@main\n")
    );
    let back = read_registry(&RegistryText::Text(written)).unwrap();
    assert_eq!(back.projects[1].github.as_deref(), Some("me/voice@main"));
    let removed = remove_project_from(Ok(back), "voice").unwrap();
    assert_eq!(render_registry(&removed), text);
    let (no_remote, _) =
        add_project_to(empty(), "/w/x", None, &facts("/w/x"), &vec![], None, "d", Some("https://example.com/x.git"), Some("main"))
            .unwrap();
    assert!(no_remote.projects[0].github.is_none());
    assert!(!render_registry(&no_remote).contains("github"));
}

#[test]
fn kebab_case_is_idempotent() {
    for s in ["Voice Pipeline", "  --weird-- ", "语音管线", "@@@", "A_b.C", "x--y", "ÄÖ Ünï"] {
        let once = kebab_case(s);
        assert_eq!(kebab_case(&once), once, "{s:?}");
    }
}

#[test]
fn kebab_after_lower_casing() {
    let k = |s: &str| kebab_of_lowered(&s.chars().collect::<Vec<_>>());
    assert_eq!(k("voice pipeline"), "voice-pipeline");
    assert_eq!(k("my_cool.project!!"), "my-cool-project");
    assert_eq!(k("--weird--"), "weird");
    assert_eq!(k("语音管线"), "语音管线");
    assert_eq!(k("@@@"), "project");
    assert_eq!(k(""), "project");
    assert_eq!(k("Upper"), "pper");
}
