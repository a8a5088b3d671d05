//! Paths as text: `~` expansion and joining, as `PathBuf` does them on Unix.
use vstd::prelude::*;
use crate::text::{chars_of, concat, has_prefix, same_chars, slice_of, starts_with, string_of};

verus! {

/// The view of an optional string.
pub open spec fn opt_view(o: Option<&str>) -> Option<Seq<char>> {
    match o {
        Some(h) => Some(h@),
        None => None,
    }
}

/// `PathBuf::join` on Unix: an absolute `rest` replaces `base`; otherwise
/// `rest` is appended, after a `/` unless `base` is empty or already ends in one.
pub open spec fn join(base: Seq<char>, rest: Seq<char>) -> Seq<char> {
    if rest.len() > 0 && rest[0] == '/' {
        rest
    } else if base.len() == 0 || base.last() == '/' {
        base + rest
    } else {
        base + seq!['/'] + rest
    }
}

/// `p` with a leading `~` (alone, or followed by `/`) replaced by the home
/// directory; unchanged when there is no home directory or no such `~`.
pub open spec fn tilde_expanded(p: Seq<char>, home: Option<Seq<char>>) -> Seq<char> {
    match home {
        Some(h) => if p == "~"@ {
            h
        } else if starts_with(p, "~/"@) {
            join(h, p.subrange("~/"@.len() as int, p.len() as int))
        } else {
            p
        },
        None => p,
    }
}

/// `base` joined with `rest` (see `join`).
pub fn path_join(base: &[char], rest: &[char]) -> (r: Vec<char>)
    ensures
        r@ == join(base@, rest@),
{
    if rest.len() > 0 && rest[0] == '/' {
        slice_of(rest, 0, rest.len())
    } else if base.len() == 0 || base[base.len() - 1] == '/' {
        concat(base, rest)
    } else {
        let mut b = slice_of(base, 0, base.len());
        b.push('/');
        concat(&b, rest)
    }
}

/// `p` with `~` expanded against the given home directory (see `tilde_expanded`).
pub fn expand_tilde_chars(p: &[char], home: Option<&str>) -> (r: Vec<char>)
    ensures
        r@ == tilde_expanded(p@, opt_view(home)),
{
    match home {
        Some(h) => {
            let tilde = chars_of("~");
            let tilde_slash = chars_of("~/");
            if same_chars(p, &tilde) {
                chars_of(h)
            } else if has_prefix(p, &tilde_slash) {
                path_join(&chars_of(h), &slice_of(p, tilde_slash.len(), p.len()))
            } else {
                slice_of(p, 0, p.len())
            }
        },
        None => slice_of(p, 0, p.len()),
    }
}

/// `p` with a leading `~` expanded to `home` (see `tilde_expanded`); the home
/// directory is handed in, so the result depends on nothing else.
pub fn expand_tilde(p: &str, home: Option<&str>) -> (r: String)
    ensures
        r@ == tilde_expanded(p@, opt_view(home)),
{
    string_of(&expand_tilde_chars(&chars_of(p), home))
}

/// The registry's default location, `~/.ai-vault/taskboard/registry.yaml`,
/// expanded against the given home directory.
pub fn default_registry_path(home: Option<&str>) -> (r: String)
    ensures
        r@ == tilde_expanded("~/.ai-vault/taskboard/registry.yaml"@, opt_view(home)),
{
    expand_tilde("~/.ai-vault/taskboard/registry.yaml", home)
}

} // verus!
