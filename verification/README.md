# taskboard

A desktop board of projects. Each registered project keeps three markdown
files (AGENTS.md, INDEX.md, CHANGELOG.md); the board shows one card per
project from them: status and description from the AGENTS.md frontmatter,
stages and progress from the `## 项目阶段` checkbox list of CHANGELOG.md, the
next steps and blockers from the `## 当前接力点 (Handoff)` section of INDEX.md.
Projects are registered in `~/.ai-vault/taskboard/registry.yaml`.

## Layout

- `src/` — the verified library (Verus):
  - `text.rs` — characters and lines, trimming, searching;
  - `yaml.rs` — YAML documents as plain values, parsed by `serde_yaml`;
  - `paths.rs` — `~` expansion and path joining;
  - `board.rs` — frontmatter, sections, stage lists, handoff items, cards,
    their order and counts, the board and the detail page;
  - `registry.rs` — reading and writing the registry, project ids, adding
    and removing projects, today's date;
  - `dates.rs` — the civil calendar;
  - `sync.rs` — local git state of a project from git's output, and its
    GitHub anchor (`owner/repo@branch`) from its remote and branch;
  - `watcher.rs` — which files and directories the watcher follows, and what
    it does for each batch of changes and over a run of batches.
- `tests/` — tests of the library.
- `app/` — the desktop program around it: file and process I/O, the file
  watcher, the HTTP fetch of the server's board, and the Tauri commands.
