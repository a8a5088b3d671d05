//! The local git state of each registered project, decided from the output of
//! the git commands the app runs; a project's GitHub anchor from its remote;
//! and the settings of the server's board fetch.
use vstd::prelude::*;
use crate::text::{
    after_first_token, chars_of, concat, contains, ends_with, find, find_in, first_token,
    has_suffix, lemma_find_from_range, same_chars, slice_of, split_once, split_token, string_of,
    trim, trim_end_chars, trim_end_chars_of, trim_of,
};
use crate::paths::opt_view;
use crate::board::opt_string;

verus! {

/// A project's local git state; anything git cannot tell is left empty or false.
pub struct LocalGitStatus {
    pub id: String,
    /// The full SHA of HEAD; empty when unknown.
    pub head: String,
    /// The work tree has changes not committed.
    pub dirty: bool,
    /// There are commits not pushed to the upstream.
    pub ahead: bool,
    /// The upstream has commits not pulled.
    pub behind: bool,
    /// The project is a git work tree (the other fields mean nothing otherwise).
    pub is_git: bool,
}

/// The value of a string of ASCII digits.
pub open spec fn digits_value(s: Seq<char>) -> nat
    decreases s.len(),
{
    if s.len() == 0 {
        0
    } else {
        digits_value(s.drop_last()) * 10 + ((s.last() as nat) - 48) as nat
    }
}

pub open spec fn ascii_digits(s: Seq<char>) -> bool {
    forall|i: int| 0 <= i < s.len() ==> '0' <= #[trigger] s[i] <= '9'
}

/// `s.parse::<u32>()`: an optional `+`, then one or more ASCII digits whose
/// value fits `u32`.
pub open spec fn parse_u32(s: Seq<char>) -> Option<u32> {
    let t = if s.len() > 0 && s[0] == '+' {
        s.drop_first()
    } else {
        s
    };
    if t.len() > 0 && ascii_digits(t) && digits_value(t) <= u32::MAX {
        Some(digits_value(t) as u32)
    } else {
        None
    }
}

proof fn lemma_digits_value_grows(s: Seq<char>, k: int)
    requires
        0 <= k <= s.len(),
        ascii_digits(s),
    ensures
        digits_value(s.subrange(0, k)) <= digits_value(s),
    decreases s.len() - k,
{
    if k < s.len() {
        lemma_digits_value_grows(s, k + 1);
        assert(s.subrange(0, k + 1).drop_last() =~= s.subrange(0, k));
        assert('0' <= s[k] <= '9');
    } else {
        assert(s.subrange(0, k) =~= s);
    }
}

/// Parses a `u32` (see `parse_u32`).
pub fn parse_u32_exec(s: &[char]) -> (r: Option<u32>)
    ensures
        r == parse_u32(s@),
{
    let t = if s.len() > 0 && s[0] == '+' {
        assert(s@.subrange(1, s@.len() as int) =~= s@.drop_first());
        slice_of(s, 1, s.len())
    } else {
        assert(s@.subrange(0, s@.len() as int) =~= s@);
        slice_of(s, 0, s.len())
    };
    let ghost tv = if s@.len() > 0 && s@[0] == '+' {
        s@.drop_first()
    } else {
        s@
    };
    assert(t@ == tv);
    if t.len() == 0 {
        return None;
    }
    let mut v: u64 = 0;
    let mut k: usize = 0;
    while k < t.len()
        invariant
            k <= t@.len(),
            t@ == tv,
            tv == (if s@.len() > 0 && s@[0] == '+' {
                s@.drop_first()
            } else {
                s@
            }),
            v == digits_value(t@.subrange(0, k as int)),
            v <= u32::MAX,
            forall|i: int| 0 <= i < k ==> '0' <= #[trigger] t@[i] <= '9',
        decreases t@.len() - k,
    {
        let c = t[k];
        if !('0' <= c && c <= '9') {
            return None;
        }
        assert(t@.subrange(0, k + 1).drop_last() =~= t@.subrange(0, k as int));
        v = v * 10 + ((c as u32) - 48) as u64;
        k = k + 1;
        if v > 4294967295 {
            proof {
                if ascii_digits(t@) {
                    lemma_digits_value_grows(t@, k as int);
                }
            }
            return None;
        }
    }
    assert(t@.subrange(0, t@.len() as int) =~= t@);
    Some(v as u32)
}

/// The output of `git rev-parse --is-inside-work-tree` says it is a work tree.
pub open spec fn says_git(inside: Option<Seq<char>>) -> bool {
    match inside {
        Some(o) => trim(o) == "true"@,
        None => false,
    }
}

/// Whether the output of `git rev-parse --is-inside-work-tree` (when the
/// command succeeded) says the directory is a git work tree.
pub fn is_git_output(inside: Option<&str>) -> (r: bool)
    ensures
        r == says_git(opt_view(inside)),
{
    match inside {
        Some(o) => same_chars(&trim_of(&chars_of(o)), &chars_of("true")),
        None => false,
    }
}

/// A count from `git rev-list --left-right --count` is above zero.
pub open spec fn positive(count: Option<u32>) -> bool {
    match count {
        Some(n) => n > 0,
        None => false,
    }
}

/// The git state of a project from the outputs of the commands that
/// succeeded (`None` for one that failed or was not run):
/// `rev-parse --is-inside-work-tree`, `rev-parse HEAD`, `status --porcelain`
/// and `rev-list --left-right --count @{upstream}...HEAD` (`behind ahead`).
/// Not a work tree: everything empty or false.
pub open spec fn git_state(
    id: Seq<char>,
    inside: Option<Seq<char>>,
    head: Option<Seq<char>>,
    porcelain: Option<Seq<char>>,
    counts: Option<Seq<char>>,
) -> (Seq<char>, Seq<char>, bool, bool, bool, bool) {
    if !says_git(inside) {
        (id, Seq::empty(), false, false, false, false)
    } else {
        (
            id,
            match head {
                Some(h) => trim(h),
                None => Seq::empty(),
            },
            match porcelain {
                Some(p) => trim(p).len() > 0,
                None => false,
            },
            match counts {
                Some(c) => positive(parse_u32(first_token(after_first_token(c)))),
                None => false,
            },
            match counts {
                Some(c) => positive(parse_u32(first_token(c))),
                None => false,
            },
            true,
        )
    }
}

/// `(id, head, dirty, ahead, behind, is_git)`.
pub open spec fn status_view(s: LocalGitStatus) -> (Seq<char>, Seq<char>, bool, bool, bool, bool) {
    (s.id@, s.head@, s.dirty, s.ahead, s.behind, s.is_git)
}

fn count_above_zero(tok: &[char]) -> (r: bool)
    ensures
        r == positive(parse_u32(tok@)),
{
    match parse_u32_exec(tok) {
        Some(n) => n > 0,
        None => false,
    }
}

/// The git state of one project (see `git_state`); never fails.
pub fn collect_git_status(
    id: &str,
    inside: Option<&str>,
    head: Option<&str>,
    porcelain: Option<&str>,
    counts: Option<&str>,
) -> (r: LocalGitStatus)
    ensures
        status_view(r) == git_state(id@, opt_view(inside), opt_view(head), opt_view(porcelain), opt_view(counts)),
{
    let mut st = LocalGitStatus {
        id: string_of(&chars_of(id)),
        head: String::new(),
        dirty: false,
        ahead: false,
        behind: false,
        is_git: false,
    };
    if !is_git_output(inside) {
        return st;
    }
    st.is_git = true;
    match head {
        Some(h) => {
            st.head = string_of(&trim_of(&chars_of(h)));
        },
        None => {},
    }
    match porcelain {
        Some(p) => {
            st.dirty = trim_of(&chars_of(p)).len() > 0;
        },
        None => {},
    }
    match counts {
        Some(c) => {
            let (first, rest) = split_token(&chars_of(c));
            let (second, _) = split_token(&rest);
            st.behind = count_above_zero(&first);
            st.ahead = count_above_zero(&second);
        },
        None => {},
    }
    st
}


/// What git printed for one project: `rev-parse --is-inside-work-tree`,
/// `rev-parse HEAD`, `status --porcelain` and
/// `rev-list --left-right --count @{upstream}...HEAD`, each `None` when the
/// command failed.
pub struct GitProbe {
    pub id: String,
    pub inside: Option<String>,
    pub head: Option<String>,
    pub porcelain: Option<String>,
    pub counts: Option<String>,
}

pub open spec fn probe_state(p: GitProbe) -> (Seq<char>, Seq<char>, bool, bool, bool, bool) {
    git_state(p.id@, opt_string(p.inside), opt_string(p.head), opt_string(p.porcelain), opt_string(p.counts))
}

fn opt_ref(o: &Option<String>) -> (r: Option<&str>)
    ensures
        opt_view(r) == opt_string(*o),
{
    match o {
        Some(s) => Some(s.as_str()),
        None => None,
    }
}

/// The local git status of every registered project, in registry order (see
/// `git_state`), from what git printed for each.
pub fn local_sync(probes: &Vec<GitProbe>) -> (r: Vec<LocalGitStatus>)
    ensures
        r@.len() == probes@.len(),
        forall|i: int| 0 <= i < r@.len() ==> status_view(#[trigger] r@[i]) == probe_state(probes@[i]),
{
    let mut out: Vec<LocalGitStatus> = Vec::new();
    let mut k: usize = 0;
    while k < probes.len()
        invariant
            k <= probes@.len(),
            out@.len() == k,
            forall|i: int| 0 <= i < k ==> status_view(#[trigger] out@[i]) == probe_state(probes@[i]),
        decreases probes@.len() - k,
    {
        let p = &probes[k];
        out.push(collect_git_status(
            p.id.as_str(),
            opt_ref(&p.inside),
            opt_ref(&p.head),
            opt_ref(&p.porcelain),
            opt_ref(&p.counts),
        ));
        k = k + 1;
    }
    out
}

/// The server's board address: the configured text unless it is missing or
/// blank, in which case fetching the server's board is off.
pub open spec fn board_url_of(configured: Option<Seq<char>>) -> Option<Seq<char>> {
    match configured {
        Some(u) => if trim(u).len() > 0 {
            Some(u)
        } else {
            None
        },
        None => None,
    }
}

/// The server's board address (see `board_url_of`).
pub fn board_url(configured: Option<&str>) -> (r: Option<String>)
    ensures
        opt_string(r) == board_url_of(opt_view(configured)),
{
    match configured {
        Some(u) => if trim_of(&chars_of(u)).len() > 0 {
            Some(string_of(&chars_of(u)))
        } else {
            None
        },
        None => None,
    }
}

/// The error shown when the server answers with an HTTP error status.
pub fn status_error(code: u16) -> (r: String)
    ensures
        r@ == "服务器返回 "@ + crate::registry::dec(code as nat),
{
    string_of(&crate::text::concat(&chars_of("服务器返回 "), &crate::registry::decimal(code as u128)))
}

// ───────────── GitHub anchor ─────────────

/// The `owner/repo` part of a GitHub remote URL (`git@github.com:owner/repo.git`,
/// `https://github.com/owner/repo`, ...): what follows `github.com:` or
/// `github.com/`, without trailing `/` and one trailing `.git`.
pub open spec fn repo_path(url: Seq<char>) -> Option<Seq<char>> {
    match find(url, "github.com"@) {
        Some(i) => {
            let j = i + "github.com"@.len();
            if j < url.len() && (url[j] == ':' || url[j] == '/') {
                let p = trim_end_chars(url.subrange(j + 1, url.len() as int), seq!['/']);
                Some(
                    if ends_with(p, ".git"@) {
                        p.subrange(0, p.len() - ".git"@.len())
                    } else {
                        p
                    },
                )
            } else {
                None
            }
        },
        None => None,
    }
}

/// `owner/repo`: two non-empty names with one `/` between them.
pub open spec fn is_owner_repo(q: Seq<char>) -> bool {
    match split_once(q, "/"@) {
        Some((o, r)) => o.len() > 0 && r.len() > 0 && !contains(r, "/"@),
        None => false,
    }
}

/// The registry's `github` anchor of a project, `owner/repo@branch`, from what
/// `git remote get-url origin` and `git rev-parse --abbrev-ref HEAD` printed
/// (`None` when a command failed). There is none unless the remote is a
/// GitHub repository and HEAD is on a branch (not detached: `HEAD`).
pub open spec fn github_anchor(remote: Option<Seq<char>>, branch: Option<Seq<char>>) -> Option<Seq<char>> {
    match (remote, branch) {
        (Some(u), Some(b)) => match repo_path(trim(u)) {
            Some(q) => if is_owner_repo(q) && trim(b).len() > 0 && trim(b) != "HEAD"@ {
                Some(q + "@"@ + trim(b))
            } else {
                None
            },
            None => None,
        },
        _ => None,
    }
}

fn repo_path_exec(url: &[char]) -> (r: Option<Vec<char>>)
    ensures
        r matches Some(q) ==> repo_path(url@) == Some(q@),
        r is None ==> repo_path(url@) is None,
{
    let host = chars_of("github.com");
    match find_in(url, &host, 0) {
        Some(i) => {
            proof {
                lemma_find_from_range(url@, host@, 0);
                assert(crate::text::occurs_at(url@, host@, i as int));
            }
            let n = url.len();
            assert(i + host@.len() <= n);
            let j = i + host.len();
            if j < url.len() && (url[j] == ':' || url[j] == '/') {
                let p = trim_end_chars_of(&slice_of(url, j + 1, url.len()), &crate::text::char1('/'));
                let suffix = chars_of(".git");
                if has_suffix(&p, &suffix) {
                    Some(slice_of(&p, 0, p.len() - suffix.len()))
                } else {
                    Some(p)
                }
            } else {
                None
            }
        },
        None => None,
    }
}

fn is_owner_repo_exec(q: &[char]) -> (b: bool)
    ensures
        b == is_owner_repo(q@),
{
    let slash = chars_of("/");
    match find_in(q, &slash, 0) {
        Some(i) => {
            proof {
                lemma_find_from_range(q@, slash@, 0);
                assert(crate::text::occurs_at(q@, slash@, i as int));
            }
            let n = q.len();
            assert(i + slash@.len() <= n);
            let o = slice_of(q, 0, i);
            let r = slice_of(q, i + slash.len(), q.len());
            o.len() > 0 && r.len() > 0 && find_in(&r, &slash, 0).is_none()
        },
        None => false,
    }
}

/// The GitHub anchor of a project (see `github_anchor`).
pub fn detect_github(remote: Option<&str>, branch: Option<&str>) -> (r: Option<String>)
    ensures
        opt_string(r) == github_anchor(opt_view(remote), opt_view(branch)),
{
    match (remote, branch) {
        (Some(u), Some(b)) => {
            let bt = trim_of(&chars_of(b));
            match repo_path_exec(&trim_of(&chars_of(u))) {
                Some(q) => if is_owner_repo_exec(&q) && bt.len() > 0 && !same_chars(
                    &bt,
                    &chars_of("HEAD"),
                ) {
                    Some(string_of(&concat(&concat(&q, &chars_of("@")), &bt)))
                } else {
                    None
                },
                None => None,
            }
        },
        _ => None,
    }
}

} // verus!
