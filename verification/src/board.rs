//! The board parser: project cards from the three per-project markdown files
//! (AGENTS.md, INDEX.md, CHANGELOG.md) and the registry entries.
use vstd::prelude::*;
use crate::paths::{tilde_expanded, expand_tilde_chars, join, opt_view, path_join};
use crate::yaml::{as_str, get, parse_yaml, yaml_document, yaml_get, yaml_str, Yaml};
use crate::text::{
    char1, char2, chars_of, concat, has_prefix, lemma_nl_pos_bounds, lines, nl_pos, same_chars,
    slice_of, split_lines, split_once, starts_with, string_of, trim, trim_end, trim_end_of,
    trim_of, trim_start, trim_start_chars, trim_start_chars_of, trim_start_of, views, find_in,
    chars_from, lemma_find_from_range, trim_start_pat, trim_end_pat, trim_start_pat_of,
    trim_end_pat_of, first_token, split_token,
};

verus! {

// ───────────── frontmatter and body ─────────────

/// `s` without leading byte-order marks.
pub open spec fn bom_free(s: Seq<char>) -> Seq<char> {
    trim_start_chars(s, seq!['\u{feff}'])
}

/// The first line of `t`, trimmed, is `---`.
pub open spec fn opens_block(t: Seq<char>) -> bool {
    t.len() > 0 && trim(t.subrange(0, nl_pos(t, 0))) == "---"@
}

/// The start of the first line at or after the line start `k` of `a` that,
/// trimmed, is `---`.
pub open spec fn closing_line(a: Seq<char>, k: int) -> Option<int>
    decreases a.len() + 1 - k,
{
    if k < 0 || k >= a.len() {
        None
    } else if trim(a.subrange(k, nl_pos(a, k))) == "---"@ {
        Some(k)
    } else {
        proof {
            lemma_nl_pos_bounds(a, k);
        }
        closing_line(a, nl_pos(a, k) + 1)
    }
}

/// The text after the opening `---` line of `t`.
pub open spec fn after_opening(t: Seq<char>) -> Seq<char> {
    t.subrange(nl_pos(t, 0) + 1, t.len() as int)
}

/// The YAML frontmatter of a markdown file: the text between an opening `---`
/// first line and the next line that is `---`, byte-order marks ignored.
pub open spec fn frontmatter(content: Seq<char>) -> Option<Seq<char>> {
    let t = bom_free(content);
    if !opens_block(t) || nl_pos(t, 0) >= t.len() {
        None
    } else {
        match closing_line(after_opening(t), 0) {
            Some(k) => Some(after_opening(t).subrange(0, k)),
            None => None,
        }
    }
}

/// The body of a markdown file: what follows the closing `---` line of its
/// frontmatter, leading line breaks removed; the whole text (without
/// byte-order marks) when there is no frontmatter.
pub open spec fn body(content: Seq<char>) -> Seq<char> {
    let t = bom_free(content);
    if !opens_block(t) || nl_pos(t, 0) >= t.len() {
        t
    } else {
        let a = after_opening(t);
        match closing_line(a, 0) {
            Some(k) => {
                let e = nl_pos(a, k);
                let start = if e < a.len() {
                    e + 1
                } else {
                    a.len() as int
                };
                trim_start_chars(a.subrange(start, a.len() as int), seq!['\n', '\r'])
            },
            None => t,
        }
    }
}

/// The end of the line that starts at `k`.
fn line_end(s: &[char], k: usize) -> (e: usize)
    requires
        k <= s@.len(),
    ensures
        e == nl_pos(s@, k as int),
        k <= e <= s@.len(),
{
    let mut e = k;
    while e < s.len() && s[e] != '\n'
        invariant
            k <= e <= s@.len(),
            nl_pos(s@, k as int) == nl_pos(s@, e as int),
        decreases s@.len() - e,
    {
        e = e + 1;
    }
    e
}

/// Whether the first line of `t`, trimmed, is `---`.
fn opens_block_exec(t: &[char]) -> (b: bool)
    ensures
        b == opens_block(t@),
{
    if t.len() == 0 {
        return false;
    }
    let e = line_end(t, 0);
    let first = trim_of(&slice_of(t, 0, e));
    same_chars(&first, &chars_of("---"))
}

/// Finds the closing `---` line of `a`, scanning line starts from 0.
fn find_closing(a: &[char]) -> (r: Option<usize>)
    ensures
        r matches Some(k) ==> closing_line(a@, 0) == Some(k as int) && k < a@.len(),
        r is None ==> closing_line(a@, 0) is None,
{
    let dashes = chars_of("---");
    let mut k: usize = 0;
    while k < a.len()
        invariant
            k <= a@.len(),
            dashes@ == "---"@,
            closing_line(a@, 0) == closing_line(a@, k as int),
        decreases a@.len() - k,
    {
        let e = line_end(a, k);
        let line = trim_of(&slice_of(a, k, e));
        if same_chars(&line, &dashes) {
            return Some(k);
        }
        if e == a.len() {
            assert(closing_line(a@, e + 1) is None);
            return None;
        }
        k = e + 1;
    }
    None
}

/// The frontmatter of a markdown file (see `frontmatter`).
pub fn extract_frontmatter(content: &str) -> (r: Option<String>)
    ensures
        r matches Some(f) ==> frontmatter(content@) == Some(f@),
        r is None ==> frontmatter(content@) is None,
{
    let t = trim_start_chars_of(&chars_of(content), &char1('\u{feff}'));
    if !opens_block_exec(&t) {
        return None;
    }
    let e = line_end(&t, 0);
    if e >= t.len() {
        return None;
    }
    let a = slice_of(&t, e + 1, t.len());
    match find_closing(&a) {
        Some(k) => Some(string_of(&slice_of(&a, 0, k))),
        None => None,
    }
}

/// The body of a markdown file (see `body`): never fails. Without a
/// frontmatter it is the whole text, byte-order marks removed.
pub fn extract_body(content: &str) -> (r: String)
    ensures
        r@ == body(content@),
        frontmatter(content@) is None ==> r@ == bom_free(content@),
{
    let t = trim_start_chars_of(&chars_of(content), &char1('\u{feff}'));
    if !opens_block_exec(&t) {
        return string_of(&t);
    }
    let e = line_end(&t, 0);
    if e >= t.len() {
        return string_of(&t);
    }
    let a = slice_of(&t, e + 1, t.len());
    match find_closing(&a) {
        Some(k) => {
            let le = line_end(&a, k);
            let start = if le < a.len() {
                le + 1
            } else {
                a.len()
            };
            string_of(&trim_start_chars_of(&slice_of(&a, start, a.len()), &char2('\n', '\r')))
        },
        None => string_of(&t),
    }
}


// ───────────── sections ─────────────

/// How a line is tested when looking for a heading or a fence.
#[derive(Clone, Copy)]
pub enum Probe {
    /// The trimmed line equals the argument.
    Trimmed,
    /// The trimmed line starts with the argument.
    TrimmedPrefix,
    /// The line without its leading white space starts with the argument.
    LeftPrefix,
}

pub open spec fn probe(kind: Probe, arg: Seq<char>, l: Seq<char>) -> bool {
    match kind {
        Probe::Trimmed => trim(l) == arg,
        Probe::TrimmedPrefix => starts_with(trim(l), arg),
        Probe::LeftPrefix => starts_with(trim_start(l), arg),
    }
}

/// The index of the first line at or after `k` that passes the probe, or the
/// number of lines.
pub open spec fn first_line(ls: Seq<Seq<char>>, k: int, kind: Probe, arg: Seq<char>) -> int
    decreases ls.len() - k,
{
    if k < 0 || k >= ls.len() {
        ls.len() as int
    } else if probe(kind, arg, ls[k]) {
        k
    } else {
        first_line(ls, k + 1, kind, arg)
    }
}

pub proof fn lemma_first_line_bounds(ls: Seq<Seq<char>>, k: int, kind: Probe, arg: Seq<char>)
    requires
        0 <= k <= ls.len(),
    ensures
        k <= first_line(ls, k, kind, arg) <= ls.len(),
    decreases ls.len() - k,
{
    if k < ls.len() && !probe(kind, arg, ls[k]) {
        lemma_first_line_bounds(ls, k + 1, kind, arg);
    }
}

/// The lines joined back into text, each followed by `'\n'`.
pub open spec fn join_lines(ls: Seq<Seq<char>>) -> Seq<char>
    decreases ls.len(),
{
    if ls.len() == 0 {
        Seq::empty()
    } else {
        join_lines(ls.drop_last()) + ls.last() + seq!['\n']
    }
}

/// `## `, the level-two heading marker.
pub open spec fn h2() -> Seq<char> {
    "## "@
}

/// The text under the first line that passes the probe, up to the next
/// level-two heading, trimmed; `None` when there is no such line or the text
/// is empty.
pub open spec fn section_by(md: Seq<char>, kind: Probe, arg: Seq<char>) -> Option<Seq<char>> {
    let ls = lines(md);
    let i = first_line(ls, 0, kind, arg);
    if i >= ls.len() {
        None
    } else {
        let j = first_line(ls, i + 1, Probe::LeftPrefix, h2());
        let s = trim(join_lines(ls.subrange(i + 1, j)));
        if s.len() == 0 {
            None
        } else {
            Some(s)
        }
    }
}

/// The section under the heading `## <heading>`.
pub open spec fn section(md: Seq<char>, heading: Seq<char>) -> Option<Seq<char>> {
    section_by(md, Probe::Trimmed, h2() + heading)
}

/// The section under the first heading that starts with `## <prefix>`.
pub open spec fn section_prefix(md: Seq<char>, prefix: Seq<char>) -> Option<Seq<char>> {
    section_by(md, Probe::TrimmedPrefix, h2() + prefix)
}

/// The first ```` ```mermaid ```` block of a text, without its fences and
/// trailing white space; `None` when there is none or it is empty.
pub open spec fn mermaid(sec: Seq<char>) -> Option<Seq<char>> {
    let ls = lines(sec);
    let i = first_line(ls, 0, Probe::TrimmedPrefix, "```mermaid"@);
    if i >= ls.len() {
        None
    } else {
        let j = first_line(ls, i + 1, Probe::TrimmedPrefix, "```"@);
        let s = trim_end(join_lines(ls.subrange(i + 1, j)));
        if s.len() == 0 {
            None
        } else {
            Some(s)
        }
    }
}

fn probe_exec(kind: Probe, arg: &[char], l: &[char]) -> (b: bool)
    ensures
        b == probe(kind, arg@, l@),
{
    match kind {
        Probe::Trimmed => same_chars(&trim_of(l), arg),
        Probe::TrimmedPrefix => has_prefix(&trim_of(l), arg),
        Probe::LeftPrefix => has_prefix(&trim_start_of(l), arg),
    }
}

fn first_probe(ls: &Vec<Vec<char>>, k: usize, kind: Probe, arg: &[char]) -> (j: usize)
    requires
        k <= ls@.len(),
    ensures
        j == first_line(views(ls@), k as int, kind, arg@),
        k <= j <= ls@.len(),
{
    let mut j = k;
    while j < ls.len() && !probe_exec(kind, arg, &ls[j])
        invariant
            k <= j <= ls@.len(),
            first_line(views(ls@), k as int, kind, arg@) == first_line(
                views(ls@),
                j as int,
                kind,
                arg@,
            ),
        decreases ls@.len() - j,
    {
        j = j + 1;
    }
    j
}

fn join_range(ls: &Vec<Vec<char>>, a: usize, b: usize) -> (r: Vec<char>)
    requires
        a <= b <= ls@.len(),
    ensures
        r@ == join_lines(views(ls@).subrange(a as int, b as int)),
{
    let mut out: Vec<char> = Vec::new();
    let mut k = a;
    assert(views(ls@).subrange(a as int, a as int) =~= Seq::<Seq<char>>::empty());
    while k < b
        invariant
            a <= k <= b <= ls@.len(),
            out@ == join_lines(views(ls@).subrange(a as int, k as int)),
        decreases b - k,
    {
        out = concat(&out, &ls[k]);
        out.push('\n');
        assert(views(ls@).subrange(a as int, k + 1).drop_last() =~= views(ls@).subrange(
            a as int,
            k as int,
        ));
        k = k + 1;
    }
    out
}

/// The section found with the given probe, as characters.
fn section_chars(md: &[char], kind: Probe, arg: &[char]) -> (r: Option<Vec<char>>)
    ensures
        r matches Some(s) ==> section_by(md@, kind, arg@) == Some(s@),
        r is None ==> section_by(md@, kind, arg@) is None,
{
    let ls = split_lines(md);
    let i = first_probe(&ls, 0, kind, arg);
    if i >= ls.len() {
        return None;
    }
    let j = first_probe(&ls, i + 1, Probe::LeftPrefix, &chars_of("## "));
    let s = trim_of(&join_range(&ls, i + 1, j));
    if s.len() == 0 {
        None
    } else {
        Some(s)
    }
}

fn to_string_opt(r: Option<Vec<char>>) -> (s: Option<String>)
    ensures
        r matches Some(v) ==> s matches Some(t) && t@ == v@,
        r is None ==> s is None,
{
    match r {
        Some(v) => Some(string_of(&v)),
        None => None,
    }
}

/// The text under the heading `## <heading>` up to the next `## ` heading,
/// trimmed; `None` when the heading is absent or the section is empty.
pub fn extract_section(md: &str, heading: &str) -> (r: Option<String>)
    ensures
        r matches Some(s) ==> section(md@, heading@) == Some(s@),
        r is None ==> section(md@, heading@) is None,
{
    let target = concat(&chars_of("## "), &chars_of(heading));
    to_string_opt(section_chars(&chars_of(md), Probe::Trimmed, &target))
}

/// Like `extract_section`, for the first heading that starts with `## <prefix>`.
pub fn extract_section_prefix(md: &str, prefix: &str) -> (r: Option<String>)
    ensures
        r matches Some(s) ==> section_prefix(md@, prefix@) == Some(s@),
        r is None ==> section_prefix(md@, prefix@) is None,
{
    let target = concat(&chars_of("## "), &chars_of(prefix));
    to_string_opt(section_chars(&chars_of(md), Probe::TrimmedPrefix, &target))
}

/// The content of the first ```` ```mermaid ```` block of `section`.
pub fn extract_mermaid(section: &str) -> (r: Option<String>)
    ensures
        r matches Some(s) ==> mermaid(section@) == Some(s@),
        r is None ==> mermaid(section@) is None,
{
    let ls = split_lines(&chars_of(section));
    let i = first_probe(&ls, 0, Probe::TrimmedPrefix, &chars_of("```mermaid"));
    if i >= ls.len() {
        return None;
    }
    let j = first_probe(&ls, i + 1, Probe::TrimmedPrefix, &chars_of("```"));
    let s = trim_end_of(&join_range(&ls, i + 1, j));
    if s.len() == 0 {
        None
    } else {
        Some(string_of(&s))
    }
}


// ───────────── stage list ─────────────

/// One checkbox line of the `## 项目阶段` section.
pub struct StageItem {
    pub name: String,
    pub desc: String,
    pub done: bool,
}

/// A stage as plain values.
pub struct StageView {
    pub name: Seq<char>,
    pub desc: Seq<char>,
    pub done: bool,
}

impl View for StageItem {
    type V = StageView;

    open spec fn view(&self) -> StageView {
        StageView { name: self.name@, desc: self.desc@, done: self.done }
    }
}

/// The separators between a stage's name and its description, tried in order.
pub open spec fn name_desc_seps() -> Seq<Seq<char>> {
    seq![" — "@, " - "@, " —— "@, "—"@, " – "@]
}

/// `text` split at the first separator of `seps[k..]` that occurs in it, both
/// halves trimmed; `(text, "")` when none does.
pub open spec fn split_name_desc_from(text: Seq<char>, seps: Seq<Seq<char>>, k: int) -> (
    Seq<char>,
    Seq<char>,
)
    decreases seps.len() - k,
{
    if k < 0 || k >= seps.len() {
        (text, Seq::empty())
    } else {
        match split_once(text, seps[k]) {
            Some((n, d)) => (trim(n), trim(d)),
            None => split_name_desc_from(text, seps, k + 1),
        }
    }
}

/// "名 — 描述" split into name and description.
pub open spec fn name_desc(text: Seq<char>) -> (Seq<char>, Seq<char>) {
    split_name_desc_from(text, name_desc_seps(), 0)
}

/// The stage a line describes, if it is a checkbox line `- [x] name — desc`
/// (or with `*`) whose name is not empty; `x` or `X` marks it done.
pub open spec fn stage_line(raw: Seq<char>) -> Option<StageView> {
    let line = trim(raw);
    let rest = if starts_with(line, "- ["@) {
        Some(line.subrange("- ["@.len() as int, line.len() as int))
    } else if starts_with(line, "* ["@) {
        Some(line.subrange("* ["@.len() as int, line.len() as int))
    } else {
        None
    };
    match rest {
        None => None,
        Some(rest) => match split_once(rest, "]"@) {
            None => None,
            Some((mark, after)) => {
                let (name, desc) = name_desc(trim(after));
                if name.len() == 0 {
                    None
                } else {
                    Some(
                        StageView {
                            name,
                            desc,
                            done: trim(mark) == "x"@ || trim(mark) == "X"@,
                        },
                    )
                }
            },
        },
    }
}

/// The stages described by the given lines, in order.
pub open spec fn stage_lines(ls: Seq<Seq<char>>) -> Seq<StageView>
    decreases ls.len(),
{
    if ls.len() == 0 {
        Seq::empty()
    } else {
        let before = stage_lines(ls.drop_last());
        match stage_line(ls.last()) {
            Some(st) => before.push(st),
            None => before,
        }
    }
}

/// The stage list of a CHANGELOG: the checkbox lines of its `## 项目阶段` section.
pub open spec fn stages(md: Seq<char>) -> Seq<StageView> {
    match section(md, "项目阶段"@) {
        Some(sec) => stage_lines(lines(sec)),
        None => Seq::empty(),
    }
}

pub open spec fn stage_views(v: Seq<StageItem>) -> Seq<StageView> {
    v.map_values(|st: StageItem| st@)
}

fn name_desc_sep_list() -> (r: Vec<Vec<char>>)
    ensures
        views(r@) == name_desc_seps(),
{
    let mut v: Vec<Vec<char>> = Vec::new();
    v.push(chars_of(" — "));
    v.push(chars_of(" - "));
    v.push(chars_of(" —— "));
    v.push(chars_of("—"));
    v.push(chars_of(" – "));
    assert(views(v@) =~= name_desc_seps());
    v
}

/// `text.split_once(p)` on characters.
fn split_once_exec(text: &[char], p: &[char]) -> (r: Option<(Vec<char>, Vec<char>)>)
    ensures
        r matches Some((a, b)) ==> split_once(text@, p@) == Some((a@, b@)),
        r is None ==> split_once(text@, p@) is None,
{
    let n = text.len();
    match find_in(text, p, 0) {
        Some(i) => {
            proof {
                lemma_find_from_range(text@, p@, 0);
            }
            Some((slice_of(text, 0, i), slice_of(text, i + p.len(), n)))
        },
        None => None,
    }
}

/// Splits "名 — 描述" into name and description (see `name_desc`).
fn split_name_desc(text: &[char]) -> (r: (Vec<char>, Vec<char>))
    ensures
        (r.0@, r.1@) == name_desc(text@),
{
    let seps = name_desc_sep_list();
    let mut k: usize = 0;
    while k < seps.len()
        invariant
            k <= seps@.len(),
            views(seps@) == name_desc_seps(),
            name_desc(text@) == split_name_desc_from(text@, name_desc_seps(), k as int),
        decreases seps@.len() - k,
    {
        match split_once_exec(text, &seps[k]) {
            Some((n, d)) => {
                return (trim_of(&n), trim_of(&d));
            },
            None => {},
        }
        k = k + 1;
    }
    (chars_from(text), Vec::new())
}

fn stage_of_line(raw: &[char]) -> (r: Option<StageItem>)
    ensures
        r matches Some(st) ==> stage_line(raw@) == Some(st@),
        r is None ==> stage_line(raw@) is None,
{
    let line = trim_of(raw);
    let dash = chars_of("- [");
    let star = chars_of("* [");
    let rest = if has_prefix(&line, &dash) {
        slice_of(&line, dash.len(), line.len())
    } else if has_prefix(&line, &star) {
        slice_of(&line, star.len(), line.len())
    } else {
        return None;
    };
    match split_once_exec(&rest, &chars_of("]")) {
        None => None,
        Some((mark, after)) => {
            let (name, desc) = split_name_desc(&trim_of(&after));
            if name.len() == 0 {
                return None;
            }
            let m = trim_of(&mark);
            let done = same_chars(&m, &chars_of("x")) || same_chars(&m, &chars_of("X"));
            Some(StageItem { name: string_of(&name), desc: string_of(&desc), done })
        },
    }
}

fn stages_of_lines(ls: &Vec<Vec<char>>) -> (r: Vec<StageItem>)
    ensures
        stage_views(r@) == stage_lines(views(ls@)),
{
    let mut out: Vec<StageItem> = Vec::new();
    let mut k: usize = 0;
    while k < ls.len()
        invariant
            k <= ls@.len(),
            stage_views(out@) == stage_lines(views(ls@).subrange(0, k as int)),
        decreases ls@.len() - k,
    {
        let ghost before = stage_views(out@);
        assert(views(ls@).subrange(0, k + 1).drop_last() =~= views(ls@).subrange(0, k as int));
        match stage_of_line(&ls[k]) {
            Some(st) => {
                out.push(st);
                assert(stage_views(out@) =~= before.push(st@));
            },
            None => {},
        }
        k = k + 1;
    }
    assert(views(ls@).subrange(0, ls@.len() as int) =~= views(ls@));
    out
}

/// The `## 项目阶段` checkbox list of a CHANGELOG (see `stages`); empty when
/// the section is missing or has no checkbox line.
pub fn extract_stage_list(md: &str) -> (r: Vec<StageItem>)
    ensures
        stage_views(r@) == stages(md@),
{
    let target = concat(&chars_of("## "), &chars_of("项目阶段"));
    match section_chars(&chars_of(md), Probe::Trimmed, &target) {
        Some(sec) => stages_of_lines(&split_lines(&sec)),
        None => Vec::new(),
    }
}


// ───────────── handoff (INDEX.md) ─────────────

/// A `### ` sub-heading line.
pub open spec fn is_sub_heading(l: Seq<char>) -> bool {
    probe(Probe::LeftPrefix, "### "@, l)
}

/// A `### 概述` sub-heading line (suffixes after 概述 tolerated).
pub open spec fn is_overview_heading(l: Seq<char>) -> bool {
    is_sub_heading(l) && starts_with(
        trim_start(trim_start_chars(trim_start(l), seq!['#'])),
        "概述"@,
    )
}

/// Some line is a `### 概述` sub-heading.
pub open spec fn has_overview(ls: Seq<Seq<char>>) -> bool {
    exists|i: int| 0 <= i < ls.len() && is_overview_heading(#[trigger] ls[i])
}

/// Whether, after the first `n` lines, the reader is inside a `### 概述` part.
pub open spec fn in_overview_after(ls: Seq<Seq<char>>, n: int) -> bool
    decreases n,
{
    if n <= 0 || n > ls.len() {
        false
    } else if is_sub_heading(ls[n - 1]) {
        is_overview_heading(ls[n - 1])
    } else {
        in_overview_after(ls, n - 1)
    }
}

/// The lines among the first `n` that belong to a `### 概述` part.
pub open spec fn overview_part(ls: Seq<Seq<char>>, n: int) -> Seq<Seq<char>>
    decreases n,
{
    if n <= 0 || n > ls.len() {
        Seq::empty()
    } else {
        let before = overview_part(ls, n - 1);
        if !is_sub_heading(ls[n - 1]) && in_overview_after(ls, n - 1) {
            before.push(ls[n - 1])
        } else {
            before
        }
    }
}

/// The overview of a Handoff section: the lines of its `### 概述` parts; when
/// it has none, the lines before its first `### ` sub-heading (all of it when
/// there is no sub-heading).
pub open spec fn overview_lines(ls: Seq<Seq<char>>) -> Seq<Seq<char>> {
    if has_overview(ls) {
        overview_part(ls, ls.len() as int)
    } else {
        ls.subrange(0, first_line(ls, 0, Probe::LeftPrefix, "### "@))
    }
}

/// A trimmed line without a leading list marker `- ` or `* `.
pub open spec fn unlisted(line: Seq<char>) -> Seq<char> {
    if starts_with(line, "- "@) {
        line.subrange("- "@.len() as int, line.len() as int)
    } else if starts_with(line, "* "@) {
        line.subrange("* "@.len() as int, line.len() as int)
    } else {
        line
    }
}

/// What a Handoff overview line says: `Some((true, text))` for a blocker
/// (`⚠` / `阻塞` with its marker removed), `Some((false, text))` for a next
/// step, `None` for blank, comment (`<!--`, `-->`) and quote (`>`) lines.
/// List markers and surrounding `**` are removed.
pub open spec fn handoff_line(raw: Seq<char>) -> Option<(bool, Seq<char>)> {
    let line = trim(raw);
    if starts_with(line, "<!--"@) || starts_with(line, "-->"@) || starts_with(line, ">"@)
        || line.len() == 0 {
        None
    } else {
        let item = trim(trim_end_pat(trim_start_pat(trim(unlisted(line)), "**"@), "**"@));
        if item.len() == 0 {
            None
        } else if starts_with(item, "⚠"@) || starts_with(item, "阻塞"@) {
            let b = trim(
                trim_start_chars(
                    trim_start_pat(trim_start(trim_start_chars(item, seq!['⚠'])), "阻塞"@),
                    seq!['：', ':'],
                ),
            );
            if b.len() == 0 {
                None
            } else {
                Some((true, b))
            }
        } else {
            Some((false, item))
        }
    }
}

/// The next steps and the blockers the given lines list, in order.
pub open spec fn handoff_items(ls: Seq<Seq<char>>) -> (Seq<Seq<char>>, Seq<Seq<char>>)
    decreases ls.len(),
{
    if ls.len() == 0 {
        (Seq::empty(), Seq::empty())
    } else {
        let (n, b) = handoff_items(ls.drop_last());
        match handoff_line(ls.last()) {
            Some((true, t)) => (n, b.push(t)),
            Some((false, t)) => (n.push(t), b),
            None => (n, b),
        }
    }
}

/// The next steps and blockers of an INDEX.md: from the overview of its
/// `## 当前接力点` section; both empty when the section is missing.
pub open spec fn handoff(index_md: Seq<char>) -> (Seq<Seq<char>>, Seq<Seq<char>>) {
    match section_prefix(index_md, "当前接力点"@) {
        Some(sec) => handoff_items(overview_lines(lines(sec))),
        None => (Seq::empty(), Seq::empty()),
    }
}

pub open spec fn strs(v: Seq<String>) -> Seq<Seq<char>> {
    v.map_values(|s: String| s@)
}

fn is_overview_heading_exec(l: &[char]) -> (b: bool)
    ensures
        b == is_overview_heading(l@),
{
    if !probe_exec(Probe::LeftPrefix, &chars_of("### "), l) {
        return false;
    }
    let t = trim_start_of(&trim_start_chars_of(&trim_start_of(l), &char1('#')));
    has_prefix(&t, &chars_of("概述"))
}

/// The overview lines of a Handoff section (see `overview_lines`).
fn extract_handoff_overview(ls: &Vec<Vec<char>>) -> (r: Vec<Vec<char>>)
    ensures
        views(r@) == overview_lines(views(ls@)),
{
    let ghost v = views(ls@);
    let sub = chars_of("### ");
    let mut has = false;
    let mut k: usize = 0;
    while k < ls.len()
        invariant
            k <= ls@.len(),
            v == views(ls@),
            has == exists|i: int| 0 <= i < k && is_overview_heading(#[trigger] v[i]),
        decreases ls@.len() - k,
    {
        assert(v[k as int] == ls@[k as int]@);
        if is_overview_heading_exec(&ls[k]) {
            has = true;
        }
        k = k + 1;
    }
    let mut out: Vec<Vec<char>> = Vec::new();
    if has {
        let mut inside = false;
        let mut k: usize = 0;
        while k < ls.len()
            invariant
                k <= ls@.len(),
                v == views(ls@),
                sub@ == "### "@,
                inside == in_overview_after(v, k as int),
                views(out@) == overview_part(v, k as int),
            decreases ls@.len() - k,
        {
            let ghost before = views(out@);
            assert(v[k as int] == ls@[k as int]@);
            if probe_exec(Probe::LeftPrefix, &sub, &ls[k]) {
                inside = is_overview_heading_exec(&ls[k]);
            } else {
                if inside {
                    out.push(chars_from(&ls[k]));
                    assert(views(out@) =~= before.push(v[k as int]));
                }
            }
            k = k + 1;
        }
    } else {
        let j = first_probe(ls, 0, Probe::LeftPrefix, &sub);
        let mut k: usize = 0;
        while k < j
            invariant
                k <= j <= ls@.len(),
                v == views(ls@),
                views(out@) == v.subrange(0, k as int),
            decreases j - k,
        {
            let ghost before = views(out@);
            assert(v[k as int] == ls@[k as int]@);
            out.push(chars_from(&ls[k]));
            assert(views(out@) =~= before.push(v[k as int]));
            assert(v.subrange(0, k + 1) =~= v.subrange(0, k as int).push(v[k as int]));
            k = k + 1;
        }
    }
    out
}

fn unlisted_exec(line: &[char]) -> (r: Vec<char>)
    ensures
        r@ == unlisted(line@),
{
    let dash = chars_of("- ");
    let star = chars_of("* ");
    if has_prefix(line, &dash) {
        slice_of(line, dash.len(), line.len())
    } else if has_prefix(line, &star) {
        slice_of(line, star.len(), line.len())
    } else {
        chars_from(line)
    }
}

fn handoff_line_exec(raw: &[char]) -> (r: Option<(bool, Vec<char>)>)
    ensures
        r matches Some((blocked, t)) ==> handoff_line(raw@) == Some((blocked, t@)),
        r is None ==> handoff_line(raw@) is None,
{
    let line = trim_of(raw);
    if has_prefix(&line, &chars_of("<!--")) || has_prefix(&line, &chars_of("-->")) || has_prefix(
        &line,
        &chars_of(">"),
    ) || line.len() == 0 {
        return None;
    }
    let bold = chars_of("**");
    let item = trim_of(
        &trim_end_pat_of(&trim_start_pat_of(&trim_of(&unlisted_exec(&line)), &bold), &bold),
    );
    if item.len() == 0 {
        return None;
    }
    if has_prefix(&item, &chars_of("⚠")) || has_prefix(&item, &chars_of("阻塞")) {
        let b = trim_of(
            &trim_start_chars_of(
                &trim_start_pat_of(
                    &trim_start_of(&trim_start_chars_of(&item, &char1('⚠'))),
                    &chars_of("阻塞"),
                ),
                &char2('：', ':'),
            ),
        );
        if b.len() == 0 {
            None
        } else {
            Some((true, b))
        }
    } else {
        Some((false, item))
    }
}

/// The next steps and blockers listed in the Handoff section of an INDEX.md
/// (see `handoff`).
pub fn extract_handoff(index_md: &str) -> (r: (Vec<String>, Vec<String>))
    ensures
        (strs(r.0@), strs(r.1@)) == handoff(index_md@),
{
    let target = concat(&chars_of("## "), &chars_of("当前接力点"));
    let sec = match section_chars(&chars_of(index_md), Probe::TrimmedPrefix, &target) {
        Some(s) => s,
        None => {
            assert(strs(Seq::<String>::empty()) =~= Seq::<Seq<char>>::empty());
            return (Vec::new(), Vec::new());
        },
    };
    let ov = extract_handoff_overview(&split_lines(&sec));
    let mut next: Vec<String> = Vec::new();
    let mut blocked: Vec<String> = Vec::new();
    let mut k: usize = 0;
    while k < ov.len()
        invariant
            k <= ov@.len(),
            (strs(next@), strs(blocked@)) == handoff_items(views(ov@).subrange(0, k as int)),
        decreases ov@.len() - k,
    {
        assert(views(ov@).subrange(0, k + 1).drop_last() =~= views(ov@).subrange(0, k as int));
        let ghost n0 = strs(next@);
        let ghost b0 = strs(blocked@);
        match handoff_line_exec(&ov[k]) {
            Some((true, t)) => {
                blocked.push(string_of(&t));
                assert(strs(blocked@) =~= b0.push(t@));
            },
            Some((false, t)) => {
                next.push(string_of(&t));
                assert(strs(next@) =~= n0.push(t@));
            },
            None => {},
        }
        k = k + 1;
    }
    assert(views(ov@).subrange(0, ov@.len() as int) =~= views(ov@));
    (next, blocked)
}

// ───────────── changelog date ─────────────

/// `YYYY-MM-DD` shape: ten characters, `-` at 4 and 7, ASCII digits elsewhere
/// (month and day ranges are not checked).
pub open spec fn iso_date_shape(s: Seq<char>) -> bool {
    s.len() == 10 && s[4] == '-' && s[7] == '-' && forall|i: int|
        0 <= i < 10 && i != 4 && i != 7 ==> '0' <= #[trigger] s[i] <= '9'
}

/// Whether `s` has the `YYYY-MM-DD` shape.
pub fn is_iso_date(s: &[char]) -> (b: bool)
    ensures
        b == iso_date_shape(s@),
{
    if s.len() != 10 || s[4] != '-' || s[7] != '-' {
        return false;
    }
    let mut i: usize = 0;
    while i < 10
        invariant
            i <= 10,
            s@.len() == 10,
            forall|k: int| 0 <= k < i && k != 4 && k != 7 ==> '0' <= #[trigger] s@[k] <= '9',
        decreases 10 - i,
    {
        if i != 4 && i != 7 && !('0' <= s[i] && s[i] <= '9') {
            return false;
        }
        i = i + 1;
    }
    true
}

/// The date a CHANGELOG line carries: the first token after `## ` of the
/// trimmed line, when it has the `YYYY-MM-DD` shape.
pub open spec fn dated_heading(l: Seq<char>) -> Option<Seq<char>> {
    let t = trim(l);
    if starts_with(t, h2()) {
        let tok = first_token(t.subrange(h2().len() as int, t.len() as int));
        if iso_date_shape(tok) {
            Some(tok)
        } else {
            None
        }
    } else {
        None
    }
}

/// The first date among the lines from `k` on, or empty.
pub open spec fn first_date(ls: Seq<Seq<char>>, k: int) -> Seq<char>
    decreases ls.len() - k,
{
    if k < 0 || k >= ls.len() {
        Seq::empty()
    } else {
        match dated_heading(ls[k]) {
            Some(d) => d,
            None => first_date(ls, k + 1),
        }
    }
}

/// The date of the topmost `## YYYY-MM-DD` entry of a CHANGELOG, or empty.
pub open spec fn changelog_date(md: Seq<char>) -> Seq<char> {
    first_date(lines(md), 0)
}

/// The date of the topmost dated entry of a CHANGELOG (see `changelog_date`).
pub fn extract_changelog_date(changelog_md: &str) -> (r: String)
    ensures
        r@ == changelog_date(changelog_md@),
{
    let ls = split_lines(&chars_of(changelog_md));
    let hash = chars_of("## ");
    let mut k: usize = 0;
    while k < ls.len()
        invariant
            k <= ls@.len(),
            hash@ == h2(),
            changelog_date(changelog_md@) == first_date(views(ls@), k as int),
        decreases ls@.len() - k,
    {
        let t = trim_of(&ls[k]);
        if has_prefix(&t, &hash) {
            let (tok, _) = split_token(&slice_of(&t, hash.len(), t.len()));
            if is_iso_date(&tok) {
                return string_of(&tok);
            }
        }
        k = k + 1;
    }
    String::new()
}


// ───────────── card metadata from AGENTS.md ─────────────

/// The board metadata of an AGENTS.md frontmatter.
pub struct AgentsMeta {
    pub status: Option<String>,
    pub desc: String,
}

pub open spec fn opt_string(o: Option<String>) -> Option<Seq<char>> {
    match o {
        Some(s) => Some(s@),
        None => None,
    }
}

/// A top-level string field, trimmed; `None` when absent, not a string or blank.
pub open spec fn meta_field(v: Yaml, key: Seq<char>) -> Option<Seq<char>> {
    match yaml_get(v, key) {
        Some(x) => match yaml_str(x) {
            Some(s) => if trim(s).len() > 0 {
                Some(trim(s))
            } else {
                None
            },
            None => None,
        },
        None => None,
    }
}

/// `(status, desc)` of a frontmatter document; `desc` empty when absent.
pub open spec fn meta_of_yaml(v: Yaml) -> (Option<Seq<char>>, Seq<char>) {
    (
        meta_field(v, "status"@),
        match meta_field(v, "desc"@) {
            Some(d) => d,
            None => Seq::empty(),
        },
    )
}

/// `(status, desc)` of an AGENTS.md: from its frontmatter; `(None, "")` when it
/// has no frontmatter or the frontmatter is not valid YAML.
pub open spec fn agents_meta(md: Seq<char>) -> (Option<Seq<char>>, Seq<char>) {
    match frontmatter(md) {
        None => (None, Seq::empty()),
        Some(fm) => match yaml_document(fm) {
            Ok(v) => meta_of_yaml(v),
            Err(_) => (None, Seq::empty()),
        },
    }
}

fn meta_field_exec(v: &Yaml, key: &str) -> (r: Option<String>)
    ensures
        opt_string(r) == meta_field(*v, key@),
{
    match get(v, &chars_of(key)) {
        Some(x) => match as_str(x) {
            Some(s) => {
                let t = trim_of(&chars_of(s.as_str()));
                if t.len() > 0 {
                    Some(string_of(&t))
                } else {
                    None
                }
            },
            None => None,
        },
        None => None,
    }
}

/// The status and description a parsed frontmatter document gives (see
/// `meta_of_yaml`).
pub fn meta_from_yaml(v: &Yaml) -> (r: AgentsMeta)
    ensures
        (opt_string(r.status), r.desc@) == meta_of_yaml(*v),
{
    let status = meta_field_exec(v, "status");
    let desc = match meta_field_exec(v, "desc") {
        Some(d) => d,
        None => String::new(),
    };
    AgentsMeta { status, desc }
}

/// The status and description of an AGENTS.md (see `agents_meta`); a missing
/// or broken frontmatter gives no status and an empty description.
pub fn parse_agents_meta(agents_md: &str) -> (r: AgentsMeta)
    ensures
        (opt_string(r.status), r.desc@) == agents_meta(agents_md@),
{
    match extract_frontmatter(agents_md) {
        None => AgentsMeta { status: None, desc: String::new() },
        Some(fm) => match parse_yaml(fm.as_str()) {
            Ok(v) => meta_from_yaml(&v),
            Err(_) => AgentsMeta { status: None, desc: String::new() },
        },
    }
}

// ───────────── progress ─────────────

/// Overall progress as the fraction `done / total` (percent = `done * 100 / total`).
pub struct Progress {
    pub done: usize,
    pub total: usize,
}

/// The number of done stages.
pub open spec fn count_done(st: Seq<StageView>) -> nat
    decreases st.len(),
{
    if st.len() == 0 {
        0
    } else {
        count_done(st.drop_last()) + if st.last().done {
            1nat
        } else {
            0nat
        }
    }
}

pub proof fn lemma_count_done_bound(st: Seq<StageView>)
    ensures
        count_done(st) <= st.len(),
    decreases st.len(),
{
    if st.len() > 0 {
        lemma_count_done_bound(st.drop_last());
    }
}

/// The progress fraction: all when the status is `done`, none when there are
/// no stages, otherwise done stages over all stages.
pub open spec fn progress_of(st: Seq<StageView>, status: Seq<char>) -> (nat, nat) {
    if status == "done"@ {
        (1, 1)
    } else if st.len() == 0 {
        (0, 1)
    } else {
        (count_done(st), st.len())
    }
}

fn count_done_exec(stages: &[StageItem]) -> (r: usize)
    ensures
        r == count_done(stage_views(stages@)),
        r <= stages@.len(),
{
    let mut c: usize = 0;
    let mut k: usize = 0;
    while k < stages.len()
        invariant
            k <= stages@.len(),
            c == count_done(stage_views(stages@).subrange(0, k as int)),
            c <= k,
        decreases stages@.len() - k,
    {
        assert(stage_views(stages@).subrange(0, k + 1).drop_last() =~= stage_views(
            stages@,
        ).subrange(0, k as int));
        if stages[k].done {
            c = c + 1;
        }
        k = k + 1;
    }
    assert(stage_views(stages@).subrange(0, stages@.len() as int) =~= stage_views(stages@));
    c
}

/// The overall progress of a project from its stage checkboxes (see
/// `progress_of`): never more than all, and a fraction with a positive total.
pub fn compute_progress_from_stages(stages: &[StageItem], status: &str) -> (r: Progress)
    ensures
        (r.done as nat, r.total as nat) == progress_of(stage_views(stages@), status@),
        0 < r.total,
        r.done <= r.total,
{
    if same_chars(&chars_of(status), &chars_of("done")) {
        Progress { done: 1, total: 1 }
    } else if stages.len() == 0 {
        Progress { done: 0, total: 1 }
    } else {
        Progress { done: count_done_exec(stages), total: stages.len() }
    }
}


// ───────────── project cards ─────────────

/// The progress file name a registry entry gets when it names none.
pub fn default_progress_file() -> (r: String)
    ensures
        r@ == "PROGRESS.md"@,
{
    string_of(&chars_of("PROGRESS.md"))
}

/// Why a card is degraded.
pub struct ParseError {
    /// `format` or `missing`.
    pub kind: String,
    /// A readable explanation.
    pub message: String,
}

impl ParseError {
    /// A `missing` error with the given message.
    pub fn missing(msg: &str) -> (r: ParseError)
        ensures
            r.kind@ == "missing"@,
            r.message@ == msg@,
    {
        ParseError { kind: string_of(&chars_of("missing")), message: string_of(&chars_of(msg)) }
    }
}

/// One project of the registry.
pub struct RegistryEntry {
    pub id: String,
    pub name: Option<String>,
    pub path: String,
    pub progress_file: String,
    pub pinned: bool,
    pub added: Option<String>,
}

/// What was read from a project's directory; a file that could not be read is
/// empty.
pub struct ProjectFiles {
    /// Whether the project directory exists.
    pub root_exists: bool,
    pub agents: String,
    pub index: String,
    pub changelog: String,
}

/// A project card.
pub struct ProjectCard {
    pub id: String,
    pub name: String,
    /// The project directory, `~` expanded.
    pub path: String,
    /// The progress file's path.
    pub progress_path: String,
    pub pinned: bool,
    pub desc: String,
    /// `active`, `paused`, `done`, or `unknown` on a degraded card.
    pub status: String,
    pub stages: Vec<String>,
    /// The first stage not done, counted from 1.
    pub current_stage: i64,
    pub progress: Progress,
    pub next: Vec<String>,
    pub blocked_by: Vec<String>,
    pub updated: String,
    /// `None` on a normal card; why it is degraded otherwise.
    pub error: Option<ParseError>,
}

/// A card as plain values.
pub struct CardView {
    pub id: Seq<char>,
    pub name: Seq<char>,
    pub path: Seq<char>,
    pub progress_path: Seq<char>,
    pub pinned: bool,
    pub desc: Seq<char>,
    pub status: Seq<char>,
    pub stages: Seq<Seq<char>>,
    pub current_stage: int,
    pub progress: (nat, nat),
    pub next: Seq<Seq<char>>,
    pub blocked_by: Seq<Seq<char>>,
    pub updated: Seq<char>,
    pub error: Option<(Seq<char>, Seq<char>)>,
}

impl View for ProjectCard {
    type V = CardView;

    open spec fn view(&self) -> CardView {
        CardView {
            id: self.id@,
            name: self.name@,
            path: self.path@,
            progress_path: self.progress_path@,
            pinned: self.pinned,
            desc: self.desc@,
            status: self.status@,
            stages: strs(self.stages@),
            current_stage: self.current_stage as int,
            progress: (self.progress.done as nat, self.progress.total as nat),
            next: strs(self.next@),
            blocked_by: strs(self.blocked_by@),
            updated: self.updated@,
            error: match self.error {
                Some(e) => Some((e.kind@, e.message@)),
                None => None,
            },
        }
    }
}

/// The message of a card whose three files carry no board data.
pub open spec fn not_on_board_msg() -> Seq<char> {
    "未接入看板：请在 AGENTS.md frontmatter 加 status，CHANGELOG.md 加「## 项目阶段」（可用 /outkanban 一键生成）"@
}

/// The display name of an entry: its name, or its id.
pub open spec fn entry_name(e: RegistryEntry) -> Seq<char> {
    match e.name {
        Some(n) => n@,
        None => e.id@,
    }
}

/// The project directory of an entry.
pub open spec fn entry_root(e: RegistryEntry, home: Option<Seq<char>>) -> Seq<char> {
    tilde_expanded(e.path@, home)
}

/// A degraded card: only the entry's own data, with the given error.
pub open spec fn degraded_card(
    e: RegistryEntry,
    home: Option<Seq<char>>,
    err: (Seq<char>, Seq<char>),
) -> CardView {
    CardView {
        id: e.id@,
        name: entry_name(e),
        path: entry_root(e, home),
        progress_path: join(entry_root(e, home), e.progress_file@),
        pinned: e.pinned,
        desc: Seq::empty(),
        status: "unknown"@,
        stages: Seq::empty(),
        current_stage: 0,
        progress: (0, 1),
        next: Seq::empty(),
        blocked_by: Seq::empty(),
        updated: match e.added {
            Some(a) => a@,
            None => Seq::empty(),
        },
        error: Some(err),
    }
}

/// `count + 1`, held within `i64`.
pub open spec fn stage_number(count: nat) -> int {
    if count + 1 <= i64::MAX {
        count + 1int
    } else {
        i64::MAX as int
    }
}

/// The card of a registry entry, given what its directory holds:
/// - a missing directory gives a degraded `missing` card;
/// - a status in AGENTS.md or a non-empty stage list in CHANGELOG.md gives a
///   full card (status `active` when AGENTS.md names none), with progress from
///   the stage checkboxes, next steps and blockers from the INDEX.md Handoff,
///   and the date of the newest CHANGELOG entry;
/// - otherwise a degraded `missing` card saying the project is not on the board.
pub open spec fn card(e: RegistryEntry, home: Option<Seq<char>>, f: ProjectFiles) -> CardView {
    let root = entry_root(e, home);
    if !f.root_exists {
        degraded_card(e, home, ("missing"@, "项目路径不存在: "@ + root))
    } else {
        let meta = agents_meta(f.agents@);
        let st = stages(f.changelog@);
        if meta.0 is Some || st.len() > 0 {
            let status = match meta.0 {
                Some(s) => s,
                None => "active"@,
            };
            CardView {
                id: e.id@,
                name: entry_name(e),
                path: root,
                progress_path: join(root, e.progress_file@),
                pinned: e.pinned,
                desc: meta.1,
                status,
                stages: st.map_values(|x: StageView| x.name),
                current_stage: stage_number(count_done(st)),
                progress: progress_of(st, status),
                next: handoff(f.index@).0,
                blocked_by: handoff(f.index@).1,
                updated: changelog_date(f.changelog@),
                error: None,
            }
        } else {
            degraded_card(e, home, ("missing"@, not_on_board_msg()))
        }
    }
}

fn copy_string(s: &String) -> (r: String)
    ensures
        r@ == s@,
{
    string_of(&chars_of(s.as_str()))
}

fn degraded(
    e: &RegistryEntry,
    home: Option<&str>,
    root: &Vec<char>,
    message: &Vec<char>,
) -> (r: ProjectCard)
    requires
        root@ == entry_root(*e, opt_view(home)),
    ensures
        r@ == degraded_card(*e, opt_view(home), ("missing"@, message@)),
{
    let name = match &e.name {
        Some(n) => copy_string(n),
        None => copy_string(&e.id),
    };
    let updated = match &e.added {
        Some(a) => copy_string(a),
        None => String::new(),
    };
    let r = ProjectCard {
        id: copy_string(&e.id),
        name,
        path: string_of(root),
        progress_path: string_of(&path_join(root, &chars_of(e.progress_file.as_str()))),
        pinned: e.pinned,
        desc: String::new(),
        status: string_of(&chars_of("unknown")),
        stages: Vec::new(),
        current_stage: 0,
        progress: Progress { done: 0, total: 1 },
        next: Vec::new(),
        blocked_by: Vec::new(),
        updated,
        error: Some(ParseError { kind: string_of(&chars_of("missing")), message: string_of(message) }),
    };
    assert(strs(r.stages@) =~= Seq::<Seq<char>>::empty());
    assert(strs(r.next@) =~= Seq::<Seq<char>>::empty());
    assert(strs(r.blocked_by@) =~= Seq::<Seq<char>>::empty());
    r
}

fn stage_names(st: &Vec<StageItem>) -> (r: Vec<String>)
    ensures
        strs(r@) == stage_views(st@).map_values(|x: StageView| x.name),
{
    let mut out: Vec<String> = Vec::new();
    let mut k: usize = 0;
    while k < st.len()
        invariant
            k <= st@.len(),
            strs(out@) == stage_views(st@).subrange(0, k as int).map_values(
                |x: StageView| x.name,
            ),
        decreases st@.len() - k,
    {
        let ghost before = strs(out@);
        out.push(copy_string(&st[k].name));
        assert(strs(out@) =~= before.push(st@[k as int].name@));
        assert(stage_views(st@).subrange(0, k + 1).map_values(|x: StageView| x.name)
            =~= stage_views(st@).subrange(0, k as int).map_values(|x: StageView| x.name).push(
            st@[k as int].name@,
        ));
        k = k + 1;
    }
    assert(stage_views(st@).subrange(0, st@.len() as int) =~= stage_views(st@));
    out
}

/// The card of one registry entry (see `card`); never fails.
pub fn parse_entry(e: &RegistryEntry, home: Option<&str>, files: &ProjectFiles) -> (r: ProjectCard)
    ensures
        r@ == card(*e, opt_view(home), *files),
{
    let root = expand_tilde_chars(&chars_of(e.path.as_str()), home);
    if !files.root_exists {
        let msg = concat(&chars_of("项目路径不存在: "), &root);
        return degraded(e, home, &root, &msg);
    }
    let meta = parse_agents_meta(files.agents.as_str());
    let stages = extract_stage_list(files.changelog.as_str());
    if meta.status.is_some() || stages.len() > 0 {
        let status = match meta.status {
            Some(s) => s,
            None => string_of(&chars_of("active")),
        };
        let (next, blocked_by) = extract_handoff(files.index.as_str());
        let progress = compute_progress_from_stages(stages.as_slice(), status.as_str());
        let done = count_done_exec(stages.as_slice());
        let d = done as u64;
        let current_stage: i64 = if d < 9223372036854775807u64 {
            (d as i64) + 1
        } else {
            9223372036854775807i64
        };
        let name = match &e.name {
            Some(n) => copy_string(n),
            None => copy_string(&e.id),
        };
        let stage_list = stage_names(&stages);
        ProjectCard {
            id: copy_string(&e.id),
            name,
            path: string_of(&root),
            progress_path: string_of(&path_join(&root, &chars_of(e.progress_file.as_str()))),
            pinned: e.pinned,
            desc: meta.desc,
            status,
            stages: stage_list,
            current_stage,
            progress,
            next,
            blocked_by,
            updated: extract_changelog_date(files.changelog.as_str()),
            error: None,
        }
    } else {
        degraded(e, home, &root, &chars_of(
            "未接入看板：请在 AGENTS.md frontmatter 加 status，CHANGELOG.md 加「## 项目阶段」（可用 /outkanban 一键生成）",
        ))
    }
}


// ───────────── ordering ─────────────

/// `x` comes before `y` in lexicographic order of code points (the order of
/// `String`'s `Ord`, which compares UTF-8 bytes).
pub open spec fn lex_lt(x: Seq<char>, y: Seq<char>) -> bool
    decreases x.len(),
{
    if x.len() == 0 {
        y.len() > 0
    } else if y.len() == 0 {
        false
    } else if x[0] != y[0] {
        x[0] < y[0]
    } else {
        lex_lt(x.drop_first(), y.drop_first())
    }
}

pub proof fn lemma_lex_total(x: Seq<char>, y: Seq<char>)
    ensures
        lex_lt(x, y) || lex_lt(y, x) || x == y,
        !(lex_lt(x, y) && lex_lt(y, x)),
    decreases x.len(),
{
    if x.len() > 0 && y.len() > 0 && x[0] == y[0] {
        lemma_lex_total(x.drop_first(), y.drop_first());
        if x.drop_first() == y.drop_first() {
            assert(x =~= seq![x[0]] + x.drop_first());
            assert(y =~= seq![y[0]] + y.drop_first());
        }
    } else if x.len() == 0 && y.len() == 0 {
        assert(x =~= y);
    }
}

pub proof fn lemma_lex_trans(x: Seq<char>, y: Seq<char>, z: Seq<char>)
    requires
        lex_lt(x, y),
        lex_lt(y, z),
    ensures
        lex_lt(x, z),
    decreases x.len(),
{
    if x.len() > 0 && y.len() > 0 && z.len() > 0 && x[0] == y[0] && y[0] == z[0] {
        lemma_lex_trans(x.drop_first(), y.drop_first(), z.drop_first());
    }
}

/// Card order: projects not done before done ones, then pinned before
/// unpinned, then by name.
pub open spec fn card_le(a: CardView, b: CardView) -> bool {
    let ad = a.status == "done"@;
    let bd = b.status == "done"@;
    if ad != bd {
        bd
    } else if a.pinned != b.pinned {
        a.pinned
    } else {
        !lex_lt(b.name, a.name)
    }
}

pub proof fn lemma_card_le_total(a: CardView, b: CardView)
    ensures
        card_le(a, b) || card_le(b, a),
{
    lemma_lex_total(a.name, b.name);
}

pub proof fn lemma_card_le_trans(a: CardView, b: CardView, c: CardView)
    requires
        card_le(a, b),
        card_le(b, c),
    ensures
        card_le(a, c),
{
    lemma_lex_total(a.name, b.name);
    lemma_lex_total(b.name, c.name);
    lemma_lex_total(a.name, c.name);
    if lex_lt(c.name, a.name) && lex_lt(a.name, b.name) {
        lemma_lex_trans(c.name, a.name, b.name);
    }
    if lex_lt(c.name, a.name) && lex_lt(b.name, c.name) {
        lemma_lex_trans(b.name, c.name, a.name);
    }
}

/// The cards are in card order.
pub open spec fn sorted_cards(cs: Seq<ProjectCard>) -> bool {
    forall|a: int, b: int| 0 <= a < b < cs.len() ==> card_le(#[trigger] cs[a]@, #[trigger] cs[b]@)
}

/// `out` is `inp` rearranged by `p` (`out[i] == inp[p[i]]`), keeping cards that
/// are equal in card order in the order they had before.
pub open spec fn is_stable_perm(out: Seq<ProjectCard>, inp: Seq<ProjectCard>, p: Seq<int>) -> bool {
    &&& p.len() == out.len() == inp.len()
    &&& forall|i: int| 0 <= i < p.len() ==> 0 <= #[trigger] p[i] < p.len() && out[i] == inp[p[i]]
    &&& forall|i: int, j: int| 0 <= i < j < p.len() ==> #[trigger] p[i] != #[trigger] p[j]
    &&& forall|i: int, j: int|
        0 <= i < j < p.len() && card_le(#[trigger] out[j]@, #[trigger] out[i]@) ==> p[i] < p[j]
}

/// `out` is a stable sort of `inp`.
pub open spec fn stable_sort_of(out: Seq<ProjectCard>, inp: Seq<ProjectCard>) -> bool {
    exists|p: Seq<int>| is_stable_perm(out, inp, p)
}

fn lex_lt_exec(x: &[char], y: &[char]) -> (r: bool)
    ensures
        r == lex_lt(x@, y@),
{
    let mut i: usize = 0;
    assert(x@.subrange(0, x@.len() as int) =~= x@);
    assert(y@.subrange(0, y@.len() as int) =~= y@);
    while i < x.len() && i < y.len() && x[i] == y[i]
        invariant
            i <= x@.len(),
            i <= y@.len(),
            lex_lt(x@, y@) == lex_lt(
                x@.subrange(i as int, x@.len() as int),
                y@.subrange(i as int, y@.len() as int),
            ),
        decreases x@.len() - i,
    {
        assert(x@.subrange(i as int, x@.len() as int).drop_first() =~= x@.subrange(
            i + 1,
            x@.len() as int,
        ));
        assert(y@.subrange(i as int, y@.len() as int).drop_first() =~= y@.subrange(
            i + 1,
            y@.len() as int,
        ));
        i = i + 1;
    }
    if i == x.len() {
        i < y.len()
    } else if i == y.len() {
        false
    } else {
        x[i] < y[i]
    }
}

fn card_le_exec(a: &ProjectCard, b: &ProjectCard) -> (r: bool)
    ensures
        r == card_le(a@, b@),
{
    let done = chars_of("done");
    let ad = same_chars(&chars_of(a.status.as_str()), &done);
    let bd = same_chars(&chars_of(b.status.as_str()), &done);
    if ad != bd {
        bd
    } else if a.pinned != b.pinned {
        a.pinned
    } else {
        !lex_lt_exec(&chars_of(b.name.as_str()), &chars_of(a.name.as_str()))
    }
}

proof fn lemma_insert_step(
    c: Seq<ProjectCard>,
    orig: Seq<ProjectCard>,
    p: Seq<int>,
    i: int,
    j: int,
)
    requires
        0 <= j <= i < c.len(),
        orig.len() == c.len(),
        p.len() == c.len(),
        forall|k: int| 0 <= k < c.len() ==> 0 <= #[trigger] p[k] < c.len() && c[k] == orig[p[k]],
        forall|k: int| i <= k < c.len() ==> #[trigger] p[k] == k,
        forall|k: int| 0 <= k < i ==> #[trigger] p[k] < i,
        forall|a: int, b: int| 0 <= a < b < c.len() ==> #[trigger] p[a] != #[trigger] p[b],
        forall|a: int, b: int| 0 <= a < b < i ==> card_le(#[trigger] c[a]@, #[trigger] c[b]@),
        forall|a: int, b: int|
            0 <= a < b < i && card_le(#[trigger] c[b]@, #[trigger] c[a]@) ==> p[a] < p[b],
        forall|t: int| 0 <= t < j ==> card_le(#[trigger] c[t]@, c[i]@),
        j < i ==> !card_le(c[j]@, c[i]@),
    ensures
        ({
            let c2 = c.remove(i).insert(j, c[i]);
            let p2 = p.remove(i).insert(j, i);
            &&& c2.len() == c.len() && p2.len() == c.len()
            &&& forall|k: int|
                0 <= k < c.len() ==> 0 <= #[trigger] p2[k] < c.len() && c2[k] == orig[p2[k]]
            &&& forall|k: int| i + 1 <= k < c.len() ==> #[trigger] p2[k] == k
            &&& forall|k: int| 0 <= k < i + 1 ==> #[trigger] p2[k] < i + 1
            &&& forall|a: int, b: int| 0 <= a < b < c.len() ==> #[trigger] p2[a] != #[trigger] p2[b]
            &&& forall|a: int, b: int|
                0 <= a < b < i + 1 ==> card_le(#[trigger] c2[a]@, #[trigger] c2[b]@)
            &&& forall|a: int, b: int|
                0 <= a < b < i + 1 && card_le(#[trigger] c2[b]@, #[trigger] c2[a]@) ==> p2[a]
                    < p2[b]
        }),
{
    let x = c[i];
    let c2 = c.remove(i).insert(j, x);
    let p2 = p.remove(i).insert(j, i);
    let n = c.len() as int;
    // where each position of the new arrangement came from
    let src = |k: int|
        if k < j {
            k
        } else if k == j {
            i
        } else if k <= i {
            k - 1
        } else {
            k
        };
    assert forall|k: int| 0 <= k < n implies c2[k] == c[src(k)] && p2[k] == p[src(k)] by {
        if k < j {
        } else if k == j {
        } else if k <= i {
        } else {
        }
    }
    assert forall|k: int| 0 <= k < n implies 0 <= #[trigger] p2[k] < n && c2[k] == orig[p2[k]] by {
        assert(c2[k] == c[src(k)] && p2[k] == p[src(k)]);
    }
    assert forall|k: int| i + 1 <= k < n implies #[trigger] p2[k] == k by {
        assert(p2[k] == p[src(k)]);
    }
    assert forall|k: int| 0 <= k < i + 1 implies #[trigger] p2[k] < i + 1 by {
        assert(p2[k] == p[src(k)]);
    }
    assert forall|a: int, b: int| 0 <= a < b < n implies #[trigger] p2[a] != #[trigger] p2[b] by {
        assert(p2[a] == p[src(a)]);
        assert(p2[b] == p[src(b)]);
        if src(a) < src(b) {
            assert(p[src(a)] != p[src(b)]);
        } else {
            assert(src(a) != src(b));
            assert(p[src(b)] != p[src(a)]);
        }
    }
    // everything in the prefix from j on comes after x
    assert forall|t: int| j <= t < i implies card_le(x@, #[trigger] c[t]@) && !card_le(c[t]@, x@) by {
        if card_le(c[t]@, x@) {
            if t != j {
                lemma_card_le_trans(c[j]@, c[t]@, x@);
            }
        }
        lemma_card_le_total(c[t]@, x@);
    }
    assert forall|a: int, b: int| 0 <= a < b < i + 1 implies card_le(#[trigger] c2[a]@, #[trigger] c2[b]@) by {
        assert(c2[a] == c[src(a)]);
        assert(c2[b] == c[src(b)]);
        if a == j {
            assert(card_le(x@, c[src(b)]@));
        } else if b == j {
            assert(card_le(c[src(a)]@, x@));
        } else {
            assert(src(a) < src(b));
        }
    }
    assert forall|a: int, b: int|
        0 <= a < b < i + 1 && card_le(#[trigger] c2[b]@, #[trigger] c2[a]@) implies p2[a] < p2[b] by {
        assert(c2[a] == c[src(a)] && p2[a] == p[src(a)]);
        assert(c2[b] == c[src(b)] && p2[b] == p[src(b)]);
        if a == j {
            assert(!card_le(c[src(b)]@, x@));
        } else if b == j {
            assert(p[src(a)] < i);
        } else {
            assert(src(a) < src(b));
        }
    }
}

/// Sorts the cards in card order, stably: projects not done before done ones,
/// pinned before unpinned, then by name; equal cards keep their order.
pub fn sort_cards(cards: &mut Vec<ProjectCard>)
    ensures
        sorted_cards(final(cards)@),
        stable_sort_of(final(cards)@, old(cards)@),
{
    let n = cards.len();
    let ghost orig = cards@;
    let ghost mut p: Seq<int> = Seq::new(n as nat, |k: int| k);
    let mut i: usize = 0;
    while i < n
        invariant
            n == orig.len(),
            cards@.len() == n,
            p.len() == n,
            i <= n,
            forall|k: int| 0 <= k < n ==> 0 <= #[trigger] p[k] < n && cards@[k] == orig[p[k]],
            forall|k: int| i <= k < n ==> #[trigger] p[k] == k,
            forall|k: int| 0 <= k < i ==> #[trigger] p[k] < i,
            forall|a: int, b: int| 0 <= a < b < n ==> #[trigger] p[a] != #[trigger] p[b],
            forall|a: int, b: int| 0 <= a < b < i ==> card_le(#[trigger] cards@[a]@, #[trigger] cards@[b]@),
            forall|a: int, b: int|
                0 <= a < b < i && card_le(#[trigger] cards@[b]@, #[trigger] cards@[a]@) ==> p[a] < p[b],
        decreases n - i,
    {
        let ghost c = cards@;
        let x = cards.remove(i);
        let mut j: usize = 0;
        while j < i && card_le_exec(&cards[j], &x)
            invariant
                j <= i < n,
                c.len() == n,
                cards@ == c.remove(i as int),
                x == c[i as int],
                forall|t: int| 0 <= t < j ==> card_le(#[trigger] c[t]@, c[i as int]@),
            decreases i - j,
        {
            assert(cards@[j as int] == c[j as int]);
            j = j + 1;
        }
        proof {
            lemma_insert_step(c, orig, p, i as int, j as int);
            p = p.remove(i as int).insert(j as int, i as int);
        }
        cards.insert(j, x);
        i = i + 1;
    }
    proof {
        assert(is_stable_perm(cards@, orig, p));
    }
}


// ───────────── summary ─────────────

/// Counts for the board's header.
pub struct Summary {
    pub active: usize,
    pub paused: usize,
    pub done: usize,
    /// Degraded cards (format or missing).
    pub error: usize,
}

/// `(active, paused, done, error)` counts of cards: a degraded card counts as
/// an error whatever its status; other statuses are not counted.
pub open spec fn tally(cs: Seq<CardView>) -> (nat, nat, nat, nat)
    decreases cs.len(),
{
    if cs.len() == 0 {
        (0, 0, 0, 0)
    } else {
        let (a, p, d, e) = tally(cs.drop_last());
        let c = cs.last();
        if c.error is Some {
            (a, p, d, e + 1)
        } else if c.status == "active"@ {
            (a + 1, p, d, e)
        } else if c.status == "paused"@ {
            (a, p + 1, d, e)
        } else if c.status == "done"@ {
            (a, p, d + 1, e)
        } else {
            (a, p, d, e)
        }
    }
}

pub open spec fn card_views(cs: Seq<ProjectCard>) -> Seq<CardView> {
    cs.map_values(|c: ProjectCard| c@)
}

/// No card is counted twice: the four counts add up to at most the number of cards.
pub proof fn lemma_tally_bound(cs: Seq<CardView>)
    ensures
        tally(cs).0 + tally(cs).1 + tally(cs).2 + tally(cs).3 <= cs.len(),
    decreases cs.len(),
{
    if cs.len() > 0 {
        lemma_tally_bound(cs.drop_last());
    }
}

/// The header counts of the cards (see `tally`).
pub fn build_summary(cards: &[ProjectCard]) -> (r: Summary)
    ensures
        (r.active as nat, r.paused as nat, r.done as nat, r.error as nat) == tally(
            card_views(cards@),
        ),
        r.active + r.paused + r.done + r.error <= cards@.len(),
{
    let mut r = Summary { active: 0, paused: 0, done: 0, error: 0 };
    let mut k: usize = 0;
    let active = chars_of("active");
    let paused = chars_of("paused");
    let done = chars_of("done");
    while k < cards.len()
        invariant
            k <= cards@.len(),
            active@ == "active"@,
            paused@ == "paused"@,
            done@ == "done"@,
            (r.active as nat, r.paused as nat, r.done as nat, r.error as nat) == tally(
                card_views(cards@).subrange(0, k as int),
            ),
        decreases cards@.len() - k,
    {
        proof {
            assert(card_views(cards@).subrange(0, k + 1).drop_last() =~= card_views(
                cards@,
            ).subrange(0, k as int));
            lemma_tally_bound(card_views(cards@).subrange(0, k as int));
        }
        let c = &cards[k];
        if c.error.is_some() {
            r.error = r.error + 1;
        } else {
            let st = chars_of(c.status.as_str());
            if same_chars(&st, &active) {
                r.active = r.active + 1;
            } else if same_chars(&st, &paused) {
                r.paused = r.paused + 1;
            } else if same_chars(&st, &done) {
                r.done = r.done + 1;
            }
        }
        k = k + 1;
    }
    proof {
        assert(card_views(cards@).subrange(0, cards@.len() as int) =~= card_views(cards@));
        lemma_tally_bound(card_views(cards@));
    }
    r
}

// ───────────── the board ─────────────

/// The registry as the app read it.
pub enum RegistryLoad {
    /// There is no registry file.
    Absent,
    /// The file could not be read; the error's text.
    ReadFailed(String),
    /// The file is not a valid registry; the parser's message.
    ParseFailed(String),
    /// The registered projects, in file order.
    Loaded(Vec<RegistryEntry>),
}

/// The input of a board: the registry outcome, and for a readable registry
/// each entry with what its directory holds.
pub enum BoardInput {
    Absent,
    ReadFailed(String),
    ParseFailed(String),
    Projects(Vec<(RegistryEntry, ProjectFiles)>),
}

/// The whole board: sorted cards, header counts, and the registry's error.
pub struct Board {
    pub projects: Vec<ProjectCard>,
    pub summary: Summary,
    /// Set only when the registry itself could not be read or parsed.
    pub registry_error: Option<String>,
}

/// The board has no cards and zero counts.
pub open spec fn empty_board(b: Board) -> bool {
    &&& b.projects@.len() == 0
    &&& b.summary.active == 0 && b.summary.paused == 0 && b.summary.done == 0 && b.summary.error == 0
}

fn board_error(prefix: &str, e: &String) -> (r: Board)
    ensures
        empty_board(r),
        r.registry_error matches Some(m) && m@ == prefix@ + e@,
{
    Board {
        projects: Vec::new(),
        summary: Summary { active: 0, paused: 0, done: 0, error: 0 },
        registry_error: Some(string_of(&concat(&chars_of(prefix), &chars_of(e.as_str())))),
    }
}

/// The board of a registry:
/// - no registry: an empty board, no error (nothing registered yet);
/// - an unreadable or unparsable registry: an empty board and the error;
/// - otherwise one card per entry (see `card`), stably sorted in card order,
///   with the header counts of those cards.
#[verifier::spinoff_prover]
pub fn assemble_board(input: BoardInput, home: Option<&str>) -> (r: Board)
    ensures
        match input {
            BoardInput::Absent => empty_board(r) && r.registry_error is None,
            BoardInput::ReadFailed(e) => empty_board(r) && (r.registry_error matches Some(m)
                && m@ == "读取 registry 失败: "@ + e@),
            BoardInput::ParseFailed(e) => empty_board(r) && (r.registry_error matches Some(m)
                && m@ == "registry.yaml 解析失败: "@ + e@),
            BoardInput::Projects(ps) => {
                &&& r.registry_error is None
                &&& sorted_cards(r.projects@)
                &&& exists|u: Seq<ProjectCard>|
                    {
                        &&& u.len() == ps@.len()
                        &&& forall|i: int|
                            0 <= i < u.len() ==> (#[trigger] u[i])@ == card(
                                ps@[i].0,
                                opt_view(home),
                                ps@[i].1,
                            )
                        &&& stable_sort_of(r.projects@, u)
                    }
                &&& (r.summary.active as nat, r.summary.paused as nat, r.summary.done as nat, r.summary.error as nat) == tally(card_views(r.projects@))
            },
        },
{
    match input {
        BoardInput::Absent => Board {
            projects: Vec::new(),
            summary: Summary { active: 0, paused: 0, done: 0, error: 0 },
            registry_error: None,
        },
        BoardInput::ReadFailed(e) => board_error("读取 registry 失败: ", &e),
        BoardInput::ParseFailed(e) => board_error("registry.yaml 解析失败: ", &e),
        BoardInput::Projects(ps) => {
            let mut cards: Vec<ProjectCard> = Vec::new();
            let mut k: usize = 0;
            while k < ps.len()
                invariant
                    k <= ps@.len(),
                    cards@.len() == k,
                    forall|i: int|
                        0 <= i < k ==> (#[trigger] cards@[i])@ == card(
                            ps@[i].0,
                            opt_view(home),
                            ps@[i].1,
                        ),
                decreases ps@.len() - k,
            {
                let c = parse_entry(&ps[k].0, home, &ps[k].1);
                cards.push(c);
                k = k + 1;
            }
            let ghost u = cards@;
            sort_cards(&mut cards);
            let summary = build_summary(cards.as_slice());
            Board { projects: cards, summary, registry_error: None }
        },
    }
}

// ───────────── project detail ─────────────

/// A project's detail page.
pub struct ProjectDetail {
    pub card: ProjectCard,
    /// The progress file's body (after its frontmatter); empty when missing.
    pub body: String,
    /// The `## 项目简介` section of INDEX.md, or empty.
    pub intro: String,
    /// The first mermaid block of INDEX.md's `## 架构图` section, or empty.
    pub arch_mermaid: String,
    /// The stage list of CHANGELOG.md.
    pub stages: Vec<StageItem>,
}

pub open spec fn or_empty(o: Option<Seq<char>>) -> Seq<char> {
    match o {
        Some(s) => s,
        None => Seq::empty(),
    }
}

/// Finds a project by id: its position among the loaded entries, or why there
/// is none.
pub open spec fn lookup(load: RegistryLoad, id: Seq<char>) -> Result<int, Seq<char>> {
    match load {
        RegistryLoad::Absent => Err("registry 不存在"@),
        RegistryLoad::ReadFailed(e) => Err("读取 registry 失败: "@ + e@),
        RegistryLoad::ParseFailed(e) => Err("registry.yaml 解析失败: "@ + e@),
        RegistryLoad::Loaded(es) => {
            if exists|i: int| 0 <= i < es@.len() && (#[trigger] es@[i]).id@ == id {
                Ok(
                    choose|i: int|
                        0 <= i < es@.len() && (#[trigger] es@[i]).id@ == id && forall|k: int|
                            0 <= k < i ==> (#[trigger] es@[k]).id@ != id,
                )
            } else {
                Err("未找到项目: "@ + id)
            }
        },
    }
}

/// The position of the first entry with the given id (see `lookup`).
pub fn find_project(load: &RegistryLoad, id: &str) -> (r: Result<usize, String>)
    ensures
        match r {
            Ok(i) => lookup(*load, id@) == Ok::<int, Seq<char>>(i as int),
            Err(m) => lookup(*load, id@) == Err::<int, Seq<char>>(m@),
        },
{
    match load {
        RegistryLoad::Absent => Err(string_of(&chars_of("registry 不存在"))),
        RegistryLoad::ReadFailed(e) => Err(
            string_of(&concat(&chars_of("读取 registry 失败: "), &chars_of(e.as_str()))),
        ),
        RegistryLoad::ParseFailed(e) => Err(
            string_of(&concat(&chars_of("registry.yaml 解析失败: "), &chars_of(e.as_str()))),
        ),
        RegistryLoad::Loaded(es) => {
            let want = chars_of(id);
            let mut k: usize = 0;
            while k < es.len()
                invariant
                    k <= es@.len(),
                    want@ == id@,
                    *load == RegistryLoad::Loaded(*es),
                    forall|t: int| 0 <= t < k ==> (#[trigger] es@[t]).id@ != id@,
                decreases es@.len() - k,
            {
                if same_chars(&chars_of(es[k].id.as_str()), &want) {
                    proof {
                        let i = k as int;
                        let pred = |j: int|
                            0 <= j < es@.len() && es@[j].id@ == id@ && forall|t: int|
                                0 <= t < j ==> (#[trigger] es@[t]).id@ != id@;
                        assert(pred(i));
                        assert(exists|j: int| 0 <= j < es@.len() && (#[trigger] es@[j]).id@ == id@);
                        let c = choose|j: int|
                            0 <= j < es@.len() && (#[trigger] es@[j]).id@ == id@ && forall|t: int|
                                0 <= t < j ==> (#[trigger] es@[t]).id@ != id@;
                        assert(pred(c));
                        if c < i {
                            assert(es@[c].id@ != id@);
                        } else if c > i {
                            assert(es@[i].id@ != id@);
                        }
                        assert(c == i);
                    }
                    return Ok(k);
                }
                k = k + 1;
            }
            Err(string_of(&concat(&chars_of("未找到项目: "), &want)))
        },
    }
}

/// The detail page of a project: its card, the body of its progress file
/// (`progress_md`, empty when the file is missing), the intro and the
/// architecture diagram from INDEX.md, and the stage list from CHANGELOG.md.
pub fn project_detail(
    e: &RegistryEntry,
    home: Option<&str>,
    files: &ProjectFiles,
    progress_md: &str,
) -> (r: ProjectDetail)
    ensures
        r.card@ == card(*e, opt_view(home), *files),
        r.body@ == body(progress_md@),
        r.intro@ == or_empty(section(files.index@, "项目简介"@)),
        r.arch_mermaid@ == match section(files.index@, "架构图"@) {
            Some(sec) => or_empty(mermaid(sec)),
            None => Seq::empty(),
        },
        stage_views(r.stages@) == stages(files.changelog@),
{
    let card = parse_entry(e, home, files);
    let body = extract_body(progress_md);
    let intro = match extract_section(files.index.as_str(), "项目简介") {
        Some(s) => s,
        None => String::new(),
    };
    let arch_mermaid = match extract_section(files.index.as_str(), "架构图") {
        Some(sec) => match extract_mermaid(sec.as_str()) {
            Some(m) => m,
            None => String::new(),
        },
        None => String::new(),
    };
    let stages = extract_stage_list(files.changelog.as_str());
    ProjectDetail { card, body, intro, arch_mermaid, stages }
}

// ───────────── watched files ─────────────

/// The files whose change refreshes the board: for each project, in registry
/// order, its AGENTS.md, INDEX.md, CHANGELOG.md and its progress file.
pub open spec fn watched(es: Seq<RegistryEntry>, home: Option<Seq<char>>) -> Seq<Seq<char>>
    decreases es.len(),
{
    if es.len() == 0 {
        Seq::empty()
    } else {
        let e = es.last();
        let root = entry_root(e, home);
        watched(es.drop_last(), home) + seq![
            join(root, "AGENTS.md"@),
            join(root, "INDEX.md"@),
            join(root, "CHANGELOG.md"@),
            join(root, e.progress_file@),
        ]
    }
}

pub proof fn lemma_watched_len(es: Seq<RegistryEntry>, home: Option<Seq<char>>)
    ensures
        watched(es, home).len() == 4 * es.len(),
    decreases es.len(),
{
    if es.len() > 0 {
        lemma_watched_len(es.drop_last(), home);
    }
}

/// The watched files of the registered projects (see `watched`): four per project.
pub fn watched_files(entries: &Vec<RegistryEntry>, home: Option<&str>) -> (r: Vec<String>)
    ensures
        strs(r@) == watched(entries@, opt_view(home)),
        r@.len() == 4 * entries@.len(),
{
    let mut out: Vec<String> = Vec::new();
    let mut k: usize = 0;
    while k < entries.len()
        invariant
            k <= entries@.len(),
            strs(out@) == watched(entries@.subrange(0, k as int), opt_view(home)),
        decreases entries@.len() - k,
    {
        let e = &entries[k];
        let root = expand_tilde_chars(&chars_of(e.path.as_str()), home);
        let ghost before = strs(out@);
        out.push(string_of(&path_join(&root, &chars_of("AGENTS.md"))));
        out.push(string_of(&path_join(&root, &chars_of("INDEX.md"))));
        out.push(string_of(&path_join(&root, &chars_of("CHANGELOG.md"))));
        out.push(string_of(&path_join(&root, &chars_of(e.progress_file.as_str()))));
        proof {
            let es = entries@.subrange(0, k + 1);
            assert(es.drop_last() =~= entries@.subrange(0, k as int));
            assert(es.last() == entries@[k as int]);
            assert(strs(out@) =~= watched(es, opt_view(home)));
        }
        k = k + 1;
    }
    proof {
        assert(entries@.subrange(0, entries@.len() as int) =~= entries@);
        lemma_watched_len(entries@, opt_view(home));
    }
    out
}

// ───────────── laws of the board parser ─────────────

/// A next step is never a blocker: a Handoff overview line read as a next
/// step is non-empty and does not begin with `⚠` or `阻塞` (those lines are
/// blockers or nothing); a blocker is non-empty.
pub proof fn lemma_handoff_line_kinds(raw: Seq<char>)
    ensures
        handoff_line(raw) matches Some((false, t)) ==> t.len() > 0 && !starts_with(t, "⚠"@)
            && !starts_with(t, "阻塞"@),
        handoff_line(raw) matches Some((true, t)) ==> t.len() > 0,
{
}

proof fn lemma_handoff_items_kinds(ls: Seq<Seq<char>>)
    ensures
        forall|i: int|
            0 <= i < handoff_items(ls).0.len() ==> (#[trigger] handoff_items(ls).0[i]).len() > 0
                && !starts_with(handoff_items(ls).0[i], "⚠"@) && !starts_with(
                handoff_items(ls).0[i],
                "阻塞"@,
            ),
        forall|i: int| 0 <= i < handoff_items(ls).1.len() ==> (#[trigger] handoff_items(ls).1[i]).len() > 0,
    decreases ls.len(),
{
    if ls.len() > 0 {
        lemma_handoff_items_kinds(ls.drop_last());
        lemma_handoff_line_kinds(ls.last());
        let (n, b) = handoff_items(ls.drop_last());
        assert forall|i: int| 0 <= i < handoff_items(ls).0.len() implies (#[trigger] handoff_items(ls).0[i]).len() > 0
            && !starts_with(handoff_items(ls).0[i], "⚠"@) && !starts_with(handoff_items(ls).0[i], "阻塞"@) by {
            if i < n.len() {
                assert(handoff_items(ls).0[i] == n[i]);
            }
        }
        assert forall|i: int| 0 <= i < handoff_items(ls).1.len() implies (#[trigger] handoff_items(ls).1[i]).len() > 0 by {
            if i < b.len() {
                assert(handoff_items(ls).1[i] == b[i]);
            }
        }
    }
}

/// Every next step `extract_handoff` reports is non-empty and begins with
/// neither `⚠` nor `阻塞`: such lines go to the blockers. Every blocker is
/// non-empty.
pub proof fn lemma_handoff_next_not_blocked(index_md: Seq<char>)
    ensures
        forall|i: int|
            0 <= i < handoff(index_md).0.len() ==> (#[trigger] handoff(index_md).0[i]).len() > 0
                && !starts_with(handoff(index_md).0[i], "⚠"@) && !starts_with(
                handoff(index_md).0[i],
                "阻塞"@,
            ),
        forall|i: int| 0 <= i < handoff(index_md).1.len() ==> (#[trigger] handoff(index_md).1[i]).len() > 0,
{
    match section_prefix(index_md, "当前接力点"@) {
        Some(sec) => lemma_handoff_items_kinds(overview_lines(lines(sec))),
        None => {},
    }
}

/// The done count is the number of done stages wherever they stand: the
/// length of the stages filtered by `done`.
pub proof fn lemma_count_done_is_filter(st: Seq<StageView>)
    ensures
        count_done(st) == st.filter(|x: StageView| x.done).len(),
    decreases st.len(),
{
    reveal(Seq::filter);
    if st.len() > 0 {
        lemma_count_done_is_filter(st.drop_last());
    }
}

/// The progress of a project that is not `done` and has stages is the number
/// of all its done stages (not only a leading run of them) over the number of
/// stages.
pub proof fn lemma_progress_counts_all_done(st: Seq<StageView>, status: Seq<char>)
    requires
        status != "done"@,
        st.len() > 0,
    ensures
        progress_of(st, status) == (st.filter(|x: StageView| x.done).len(), st.len()),
{
    lemma_count_done_is_filter(st);
}

/// The card order: a project not done comes before a done one; with the same
/// done-ness a pinned project comes before an unpinned one; otherwise names
/// decide, in code-point order.
pub proof fn lemma_card_order(a: CardView, b: CardView)
    ensures
        a.status != "done"@ && b.status == "done"@ ==> card_le(a, b) && !card_le(b, a),
        (a.status == "done"@) == (b.status == "done"@) && a.pinned && !b.pinned ==> card_le(a, b)
            && !card_le(b, a),
        (a.status == "done"@) == (b.status == "done"@) && a.pinned == b.pinned ==> (card_le(a, b)
            <==> !lex_lt(b.name, a.name)),
{
}

/// In sorted cards, done projects come after all others, and among cards of
/// the same done-ness the pinned ones come first.
pub proof fn lemma_sorted_cards_order(cs: Seq<ProjectCard>)
    requires
        sorted_cards(cs),
    ensures
        forall|i: int, j: int|
            0 <= i < j < cs.len() && (#[trigger] cs[i])@.status == "done"@ ==> (#[trigger] cs[j])@.status
                == "done"@,
        forall|i: int, j: int|
            0 <= i < j < cs.len() && ((#[trigger] cs[i])@.status == "done"@) == ((#[trigger] cs[j])@.status
                == "done"@) && cs[j]@.pinned ==> cs[i]@.pinned,
{
    assert forall|i: int, j: int|
        0 <= i < j < cs.len() && (#[trigger] cs[i])@.status == "done"@ implies (#[trigger] cs[j])@.status
            == "done"@ by {
        assert(card_le(cs[i]@, cs[j]@));
        lemma_card_order(cs[j]@, cs[i]@);
    }
    assert forall|i: int, j: int|
        0 <= i < j < cs.len() && ((#[trigger] cs[i])@.status == "done"@) == ((#[trigger] cs[j])@.status
            == "done"@) && cs[j]@.pinned implies cs[i]@.pinned by {
        assert(card_le(cs[i]@, cs[j]@));
        lemma_card_order(cs[j]@, cs[i]@);
    }
}

/// The stage list keeps every checkbox line and only those, in order: it is
/// the line sequence mapped by `stage_line` with the non-stage lines dropped.
pub proof fn lemma_stage_lines_filter(ls: Seq<Seq<char>>)
    ensures
        stage_lines(ls) == ls.filter_map(|l: Seq<char>| stage_line(l)),
    decreases ls.len(),
{
    if ls.len() > 0 {
        lemma_stage_lines_filter(ls.drop_last());
        match stage_line(ls.last()) {
            Some(st) => {
                assert(stage_lines(ls.drop_last()).push(st) =~= stage_lines(ls.drop_last()) + seq![st]);
            },
            None => {},
        }
    }
}

/// The stage list of two runs of lines is the stage list of the first run
/// followed by that of the second: no line hides the checkbox lines after it.
pub proof fn lemma_stage_lines_concat(a: Seq<Seq<char>>, b: Seq<Seq<char>>)
    ensures
        stage_lines(a + b) == stage_lines(a) + stage_lines(b),
    decreases b.len(),
{
    if b.len() == 0 {
        assert(a + b =~= a);
        assert(stage_lines(a) + stage_lines(b) =~= stage_lines(a));
    } else {
        lemma_stage_lines_concat(a, b.drop_last());
        assert((a + b).drop_last() =~= a + b.drop_last());
        assert((a + b).last() == b.last());
        match stage_line(b.last()) {
            Some(st) => {
                assert((stage_lines(a) + stage_lines(b.drop_last())).push(st) =~= stage_lines(a)
                    + stage_lines(b.drop_last()).push(st));
            },
            None => {},
        }
    }
}

/// A single line gives one stage when it is a checkbox line, nothing otherwise.
pub proof fn lemma_stage_lines_single(l: Seq<char>)
    ensures
        stage_lines(seq![l]) == match stage_line(l) {
            Some(st) => seq![st],
            None => Seq::<StageView>::empty(),
        },
{
    assert(seq![l].drop_last() =~= Seq::<Seq<char>>::empty());
    assert(seq![l].last() == l);
    assert(stage_lines(Seq::<Seq<char>>::empty()) == Seq::<StageView>::empty());
    match stage_line(l) {
        Some(st) => {
            assert(Seq::<StageView>::empty().push(st) =~= seq![st]);
        },
        None => {},
    }
}

proof fn lemma_first_line_at(ls: Seq<Seq<char>>, k: int, kind: Probe, arg: Seq<char>, j: int)
    requires
        0 <= k <= j <= ls.len(),
        forall|t: int| k <= t < j ==> !probe(kind, arg, #[trigger] ls[t]),
        j < ls.len() ==> probe(kind, arg, ls[j]),
    ensures
        first_line(ls, k, kind, arg) == j,
    decreases j - k,
{
    if k < j {
        lemma_first_line_at(ls, k + 1, kind, arg, j);
    }
}

/// Where a section lies: when line `i` of `md` is the first to pass the
/// heading probe and line `j` is the first after it whose text, leading white
/// space ignored, starts with `## ` (or `j` is past the last line), the
/// section is the lines strictly between, joined and trimmed (`None` when
/// that is empty). Lines such as `### sub-heading` do not end it.
pub proof fn lemma_section_extent(md: Seq<char>, kind: Probe, arg: Seq<char>, i: int, j: int)
    requires
        0 <= i < j <= lines(md).len(),
        probe(kind, arg, lines(md)[i]),
        forall|t: int| 0 <= t < i ==> !probe(kind, arg, #[trigger] lines(md)[t]),
        forall|t: int| i < t < j ==> !starts_with(trim_start(#[trigger] lines(md)[t]), "## "@),
        j < lines(md).len() ==> starts_with(trim_start(lines(md)[j]), "## "@),
    ensures
        section_by(md, kind, arg) == (if trim(join_lines(lines(md).subrange(i + 1, j))).len() == 0 {
            None
        } else {
            Some(trim(join_lines(lines(md).subrange(i + 1, j))))
        }),
{
    let ls = lines(md);
    lemma_first_line_at(ls, 0, kind, arg, i);
    assert forall|t: int| i + 1 <= t < j implies !probe(Probe::LeftPrefix, h2(), #[trigger] ls[t]) by {}
    lemma_first_line_at(ls, i + 1, Probe::LeftPrefix, h2(), j);
}

/// Without a line that passes the heading probe there is no section.
pub proof fn lemma_section_absent(md: Seq<char>, kind: Probe, arg: Seq<char>)
    requires
        forall|t: int| 0 <= t < lines(md).len() ==> !probe(kind, arg, #[trigger] lines(md)[t]),
    ensures
        section_by(md, kind, arg) is None,
{
    lemma_first_line_at(lines(md), 0, kind, arg, lines(md).len() as int);
}

} // verus!
