use taskboard::board::{
    extract_body, extract_changelog_date, extract_frontmatter, extract_handoff, extract_mermaid,
    extract_section, extract_section_prefix, extract_stage_list, StageItem,
};
use taskboard::paths::{default_registry_path, expand_tilde};

fn stage(name: &str, desc: &str, done: bool) -> (String, String, bool) {
    (name.to_string(), desc.to_string(), done)
}

fn as_tuple(s: &StageItem) -> (String, String, bool) {
    (s.name.clone(), s.desc.clone(), s.done)
}

#[test]
fn test_extract_frontmatter_ok() {
    let c = "---\nproject: x\nstatus: active\n---\n# body\n";
    let fm = extract_frontmatter(c).unwrap();
    assert!(fm.contains("project: x"));
    assert!(!fm.contains("body"));
}

#[test]
fn test_extract_frontmatter_missing() {
    assert!(extract_frontmatter("# 没有 frontmatter\n正文").is_none());
}

#[test]
fn test_extract_body_after_frontmatter() {
    let c = "---\nproject: x\nstatus: active\n---\n## 阶段记录\n\n正文内容\n";
    assert_eq!(extract_body(c), "## 阶段记录\n\n正文内容\n");
}

#[test]
fn test_extract_body_no_frontmatter_returns_full() {
    let c = "# 没有 frontmatter\n正文";
    assert_eq!(extract_body(c), c);
}

#[test]
fn test_extract_section_basic() {
    let md = "# T\n\n## 项目简介\n这是一句简介。\n第二行。\n\n## 架构图\n图内容\n";
    assert_eq!(extract_section(md, "项目简介").unwrap(), "这是一句简介。\n第二行。");
    assert_eq!(extract_section(md, "架构图").unwrap(), "图内容");
    assert!(extract_section(md, "不存在").is_none());
}

#[test]
fn test_extract_mermaid_ok_and_none() {
    let sec = "前言\n```mermaid\nflowchart TD\n  A --> B\n```\n后语";
    assert_eq!(extract_mermaid(sec).unwrap(), "flowchart TD\n  A --> B");
    assert!(extract_mermaid("没有代码块").is_none());
}

#[test]
fn test_extract_stage_list_parses_checkbox() {
    let md = "## 项目阶段\n- [x] 需求与架构 — 明确方案\n- [ ] provider 注入 — 专属 home\n- [X] 备份机制\n非列表行\n\n## 2026-06-13 #feat scope:x - 变更流水\n";
    let items = extract_stage_list(md);
    assert_eq!(items.len(), 3);
    assert_eq!(as_tuple(&items[0]), stage("需求与架构", "明确方案", true));
    assert_eq!(as_tuple(&items[1]), stage("provider 注入", "专属 home", false));
    assert_eq!(as_tuple(&items[2]), stage("备份机制", "", true));
}

#[test]
fn test_extract_stage_list_no_block_empty() {
    assert!(extract_stage_list("## 别的\n- [x] 不该被抓").is_empty());
}

#[test]
fn test_extract_handoff_next_and_blocked() {
    let idx = "# T\n\n## 当前接力点 (Handoff)\n- 写集成测试\n- ⚠ 阻塞：等待上游接口\n- 打包发布\n\n## 项目定位\nxxx";
    let (next, blocked) = extract_handoff(idx);
    assert_eq!(next, vec!["写集成测试".to_string(), "打包发布".to_string()]);
    assert_eq!(blocked, vec!["等待上游接口".to_string()]);
    let (n2, b2) = extract_handoff("# 无 handoff");
    assert!(n2.is_empty() && b2.is_empty());
}

#[test]
fn test_extract_handoff_overview_only_detail_ignored() {
    let idx = "# T\n\n## 当前接力点 (Handoff)\n\n### 概述\n- 打包发布\n- ⚠ 阻塞：等待签名证书\n\n### 明细\n跑 ./scripts/install.sh 构建 .app。\n- 这行明细里的列表项不该被当成 next\n- ⚠ 这行也不该进 blocked_by\n\n## 项目定位\nxxx";
    let (next, blocked) = extract_handoff(idx);
    assert_eq!(next, vec!["打包发布".to_string()]);
    assert_eq!(blocked, vec!["等待签名证书".to_string()]);
}

#[test]
fn test_extract_handoff_detail_before_overview_still_isolated() {
    let idx = "## 当前接力点 (Handoff)\n\n### 明细\n- 假 next\n\n### 概述\n- 真 next\n";
    let (next, _) = extract_handoff(idx);
    assert_eq!(next, vec!["真 next".to_string()]);
}

#[test]
fn test_extract_handoff_plain_bold_no_bullet() {
    let idx = "## 当前接力点 (Handoff)\n\n> 只保留最新一条。\n\n### 概述\n**跑 ./scripts/install.sh 正式打包发布**\n**⚠ 阻塞：等待签名证书**\n\n### 明细\n背景说明若干。\n";
    let (next, blocked) = extract_handoff(idx);
    assert_eq!(next, vec!["跑 ./scripts/install.sh 正式打包发布".to_string()]);
    assert_eq!(blocked, vec!["等待签名证书".to_string()]);
}

#[test]
fn test_extract_handoff_skips_html_comment() {
    let idx = "## 当前接力点 (Handoff)\n<!-- 当前没有接力点。 -->\n";
    let (next, blocked) = extract_handoff(idx);
    assert!(next.is_empty() && blocked.is_empty());
}

#[test]
fn test_extract_changelog_date() {
    let cl = "# CHANGELOG\n\n## 格式规范\n\n## 2026-06-14 #feat scope:x - 主题\n- Why: ...\n## 2026-06-01 #fix - 旧的\n";
    assert_eq!(extract_changelog_date(cl), "2026-06-14");
    assert_eq!(extract_changelog_date("# 无日期条目\n## 格式规范"), "");
}

#[test]
fn test_expand_tilde() {
    let home = Some("/Users/test");
    assert_eq!(expand_tilde("~", home), "/Users/test");
    assert_eq!(expand_tilde("~/.ai-vault", home), "/Users/test/.ai-vault");
    assert_eq!(expand_tilde("/abs/路径/中文", home), "/abs/路径/中文");
    assert_eq!(expand_tilde("~/x", None), "~/x");
}

// ───── further cases ─────

#[test]
fn frontmatter_with_bom_and_crlf() {
    let c = "\u{feff}---\r\nstatus: done\r\n---\r\nbody\r\n";
    assert_eq!(extract_frontmatter(c).unwrap(), "status: done\r\n");
    assert_eq!(extract_body(c), "body\r\n");
}

#[test]
fn frontmatter_without_closing_line() {
    let c = "---\nstatus: done\n";
    assert!(extract_frontmatter(c).is_none());
    assert_eq!(extract_body(c), c);
    assert_eq!(extract_body("---"), "---");
}

#[test]
fn empty_section_is_none() {
    assert!(extract_section("## 项目简介\n\n   \n## 下一个\n", "项目简介").is_none());
    assert_eq!(extract_section_prefix("## 当前接力点 (Handoff)\n- a\n", "当前接力点").unwrap(), "- a");
}

#[test]
fn handoff_without_overview_stops_at_first_sub_heading() {
    let idx = "## 当前接力点\n- 前面的\n### 细节\n- 后面的\n";
    let (next, blocked) = extract_handoff(idx);
    assert_eq!(next, vec!["前面的".to_string()]);
    assert!(blocked.is_empty());
}

#[test]
fn handoff_blocker_with_ascii_colon_and_star_list() {
    let idx = "## 当前接力点\n* 阻塞: 证书\n* 下一步\n";
    let (next, blocked) = extract_handoff(idx);
    assert_eq!(next, vec!["下一步".to_string()]);
    assert_eq!(blocked, vec!["证书".to_string()]);
}

#[test]
fn stage_separators_in_order() {
    let md = "## 项目阶段\n* [ ] 甲 - 乙\n- [x] 丙——丁\n- [x] 戊 – 己\n- [x]    \n";
    let items = extract_stage_list(md);
    assert_eq!(items.len(), 3);
    assert_eq!(as_tuple(&items[0]), stage("甲", "乙", false));
    assert_eq!(as_tuple(&items[1]), stage("丙", "—丁", true));
    assert_eq!(as_tuple(&items[2]), stage("戊", "己", true));
}

#[test]
fn expand_tilde_joins_like_paths() {
    assert_eq!(expand_tilde("~/", Some("/h")), "/h/");
    assert_eq!(expand_tilde("~//abs", Some("/h")), "/abs");
    assert_eq!(expand_tilde("~user", Some("/h")), "~user");
    assert_eq!(expand_tilde("~/a", Some("/h/")), "/h/a");
    assert_eq!(default_registry_path(Some("/u")), "/u/.ai-vault/taskboard/registry.yaml");
}

#[test]
fn body_without_frontmatter_is_the_whole_text() {
    assert_eq!(extract_body("\u{feff}\u{feff}# 标题\n正文"), "# 标题\n正文");
    assert_eq!(extract_body("---\nno closing line\n"), "---\nno closing line\n");
    assert_eq!(extract_body(""), "");
}
