//! Which paths the file watcher follows, decided on path components as
//! `std::path::Path` compares them.
use vstd::prelude::*;
use crate::text::{chars_of, same_chars, slice_of, string_of, views};

verus! {

/// The position of the first `/` at or after `k`, or the length.
pub open spec fn slash_pos(s: Seq<char>, k: int) -> int
    decreases s.len() - k,
{
    if k < 0 || k >= s.len() {
        s.len() as int
    } else if s[k] == '/' {
        k
    } else {
        slash_pos(s, k + 1)
    }
}

pub proof fn lemma_slash_pos_bounds(s: Seq<char>, k: int)
    requires
        0 <= k <= s.len(),
    ensures
        k <= slash_pos(s, k) <= s.len(),
        slash_pos(s, k) < s.len() ==> s[slash_pos(s, k)] == '/',
    decreases s.len() - k,
{
    if k < s.len() && s[k] != '/' {
        lemma_slash_pos_bounds(s, k + 1);
    }
}

/// `s.split('/')`: the texts between slashes, empty ones included.
pub open spec fn segments(s: Seq<char>) -> Seq<Seq<char>>
    decreases s.len(),
{
    let i = slash_pos(s, 0);
    if i >= s.len() {
        seq![s]
    } else {
        proof {
            lemma_slash_pos_bounds(s, 0);
        }
        seq![s.subrange(0, i)] + segments(s.subrange(i + 1, s.len() as int))
    }
}

/// Whether segment `i` of a path is one of its components: not empty, and
/// not `.` unless it starts a relative path.
pub open spec fn kept_segment(seg: Seq<char>, i: int, rooted: bool) -> bool {
    seg.len() > 0 && !(seg == "."@ && !(i == 0 && !rooted))
}

/// The components among the first `n` segments.
pub open spec fn kept_segments(segs: Seq<Seq<char>>, n: int, rooted: bool) -> Seq<Seq<char>>
    decreases n,
{
    if n <= 0 || n > segs.len() {
        Seq::empty()
    } else {
        let before = kept_segments(segs, n - 1, rooted);
        if kept_segment(segs[n - 1], n - 1, rooted) {
            before.push(segs[n - 1])
        } else {
            before
        }
    }
}

/// `Path::components` on Unix, each as text (`/` for the root, `.` and `..`
/// for the current and parent directory): repeated and trailing separators
/// are ignored, and `.` is dropped except at the start of a relative path.
/// Two paths are equal as `Path`s exactly when their components are.
pub open spec fn components(s: Seq<char>) -> Seq<Seq<char>> {
    let rooted = s.len() > 0 && s[0] == '/';
    let segs = segments(s);
    (if rooted {
        seq!["/"@]
    } else {
        Seq::empty()
    }) + kept_segments(segs, segs.len() as int, rooted)
}

/// `Path::parent`: all components but the last, unless there is none or the
/// last is the root.
pub open spec fn parent(c: Seq<Seq<char>>) -> Option<Seq<Seq<char>>> {
    if c.len() > 0 && c.last() != "/"@ {
        Some(c.drop_last())
    } else {
        None
    }
}

/// `Path::file_name`: the last component when it is a normal name, that is
/// not the root, `.` or `..`.
pub open spec fn file_name(p: Seq<char>) -> Option<Seq<char>> {
    let c = components(p);
    if c.len() > 0 && c.last() != "/"@ && c.last() != "."@ && c.last() != ".."@ {
        Some(c.last())
    } else {
        None
    }
}

fn segments_exec(s: &[char]) -> (r: Vec<Vec<char>>)
    ensures
        views(r@) == segments(s@),
{
    let n = s.len();
    let mut out: Vec<Vec<char>> = Vec::new();
    let mut pos: usize = 0;
    assert(s@.subrange(0, n as int) =~= s@);
    loop
        invariant
            n == s@.len(),
            pos <= n,
            views(out@) + segments(s@.subrange(pos as int, n as int)) == segments(s@),
        decreases n - pos,
    {
        let mut e = pos;
        while e < n && s[e] != '/'
            invariant
                pos <= e <= n == s@.len(),
                slash_pos(s@.subrange(pos as int, n as int), 0) == slash_pos(
                    s@.subrange(pos as int, n as int),
                    e - pos,
                ),
            decreases n - e,
        {
            e = e + 1;
        }
        let ghost rest = s@.subrange(pos as int, n as int);
        assert(slash_pos(rest, e - pos) == e - pos);
        let seg = slice_of(s, pos, e);
        let ghost before = views(out@);
        out.push(seg);
        assert(views(out@) =~= before.push(seg@));
        if e == n {
            assert(rest.subrange(0, rest.len() as int) =~= rest);
            assert(segments(rest) == seq![rest]);
            assert(views(out@) =~= segments(s@));
            return out;
        }
        assert(rest.subrange(0, e - pos) =~= seg@);
        assert(rest.subrange(e - pos + 1, rest.len() as int) =~= s@.subrange(e + 1, n as int));
        pos = e + 1;
        assert(views(out@) + segments(s@.subrange(pos as int, n as int)) =~= segments(s@));
    }
}

/// The components of a path (see `components`).
pub fn path_components(s: &[char]) -> (r: Vec<Vec<char>>)
    ensures
        views(r@) == components(s@),
{
    let rooted = s.len() > 0 && s[0] == '/';
    let segs = segments_exec(s);
    let dot = chars_of(".");
    let mut out: Vec<Vec<char>> = Vec::new();
    if rooted {
        out.push(chars_of("/"));
    }
    let ghost head = views(out@);
    assert(head =~= (if rooted {
        seq!["/"@]
    } else {
        Seq::<Seq<char>>::empty()
    }));
    let mut k: usize = 0;
    while k < segs.len()
        invariant
            k <= segs@.len(),
            dot@ == "."@,
            views(out@) == head + kept_segments(views(segs@), k as int, rooted),
        decreases segs@.len() - k,
    {
        let seg = &segs[k];
        let keep = seg.len() > 0 && !(same_chars(seg, &dot) && !(k == 0 && !rooted));
        let ghost before = views(out@);
        if keep {
            out.push(slice_of(seg, 0, seg.len()));
            assert(seg@.subrange(0, seg@.len() as int) =~= seg@);
            assert(views(out@) =~= before.push(seg@));
        }
        k = k + 1;
    }
    out
}

/// Whether two component lists are equal.
fn same_components(a: &Vec<Vec<char>>, b: &Vec<Vec<char>>) -> (r: bool)
    ensures
        r == (views(a@) == views(b@)),
{
    if a.len() != b.len() {
        return false;
    }
    let mut k: usize = 0;
    while k < a.len()
        invariant
            k <= a@.len() == b@.len(),
            forall|i: int| 0 <= i < k ==> views(a@)[i] == views(b@)[i],
        decreases a@.len() - k,
    {
        if !same_chars(&a[k], &b[k]) {
            assert(views(a@)[k as int] != views(b@)[k as int]);
            return false;
        }
        k = k + 1;
    }
    assert(views(a@) =~= views(b@));
    true
}

/// The component lists of some paths, in order.
pub open spec fn comps_of(ps: Seq<Seq<char>>) -> Seq<Seq<Seq<char>>> {
    ps.map_values(|p: Seq<char>| components(p))
}

/// No two entries are equal.
pub open spec fn distinct<T>(s: Seq<T>) -> bool {
    forall|i: int, j: int| 0 <= i < j < s.len() ==> s[i] != s[j]
}

/// `out` holds the same values as `all`, each once.
pub open spec fn same_set_once<T>(out: Seq<T>, all: Seq<T>) -> bool {
    &&& distinct(out)
    &&& forall|x: T| out.contains(x) <==> all.contains(x)
}

pub open spec fn comp_views(v: Seq<Vec<Vec<char>>>) -> Seq<Seq<Seq<char>>> {
    v.map_values(|c: Vec<Vec<char>>| views(c@))
}

/// Whether `x` is among the component lists.
fn has_components(list: &Vec<Vec<Vec<char>>>, x: &Vec<Vec<char>>) -> (r: bool)
    ensures
        r == comp_views(list@).contains(views(x@)),
{
    let mut k: usize = 0;
    while k < list.len()
        invariant
            k <= list@.len(),
            forall|i: int| 0 <= i < k ==> comp_views(list@)[i] != views(x@),
        decreases list@.len() - k,
    {
        if same_components(&list[k], x) {
            assert(comp_views(list@)[k as int] == views(x@));
            return true;
        }
        k = k + 1;
    }
    false
}

fn copy_components(c: &Vec<Vec<char>>, n: usize) -> (r: Vec<Vec<char>>)
    requires
        n <= c@.len(),
    ensures
        views(r@) == views(c@).subrange(0, n as int),
{
    let mut out: Vec<Vec<char>> = Vec::new();
    let mut k: usize = 0;
    while k < n
        invariant
            k <= n <= c@.len(),
            views(out@) == views(c@).subrange(0, k as int),
        decreases n - k,
    {
        let ghost before = views(out@);
        out.push(slice_of(&c[k], 0, c[k].len()));
        assert(c@[k as int]@.subrange(0, c@[k as int]@.len() as int) =~= c@[k as int]@);
        assert(views(out@) =~= before.push(views(c@)[k as int]));
        assert(views(c@).subrange(0, k + 1) =~= views(c@).subrange(0, k as int).push(
            views(c@)[k as int],
        ));
        k = k + 1;
    }
    out
}

proof fn lemma_push_contains<T>(s: Seq<T>, a: T, x: T)
    ensures
        s.push(a).contains(x) <==> (s.contains(x) || x == a),
{
    if s.contains(x) {
        let i = choose|i: int| 0 <= i < s.len() && s[i] == x;
        assert(s.push(a)[i] == x);
    }
    if x == a {
        assert(s.push(a)[s.len() as int] == a);
    }
    if s.push(a).contains(x) {
        let i = choose|i: int| 0 <= i < s.push(a).len() && s.push(a)[i] == x;
        if i < s.len() {
            assert(s[i] == x);
        }
    }
}

proof fn lemma_push_distinct<T>(s: Seq<T>, a: T)
    requires
        distinct(s),
        !s.contains(a),
    ensures
        distinct(s.push(a)),
{
    assert forall|i: int, j: int| 0 <= i < j < s.push(a).len() implies s.push(a)[i] != s.push(a)[j] by {
        if j == s.len() {
            assert(s[i] != a);
        }
    }
}

/// Adds a path and its directory, each unless already there.
fn add_target(fs: &mut Vec<Vec<Vec<char>>>, ds: &mut Vec<Vec<Vec<char>>>, p: &[char])
    requires
        distinct(comp_views(old(fs)@)),
        distinct(comp_views(old(ds)@)),
    ensures
        distinct(comp_views(final(fs)@)),
        distinct(comp_views(final(ds)@)),
        forall|x: Seq<Seq<char>>|
            comp_views(final(fs)@).contains(x) <==> (comp_views(old(fs)@).contains(x) || x
                == components(p@)),
        forall|d: Seq<Seq<char>>|
            comp_views(final(ds)@).contains(d) <==> (comp_views(old(ds)@).contains(d) || parent(
                components(p@),
            ) == Some(d)),
{
    let c = path_components(p);
    let ghost fs0 = comp_views(fs@);
    let ghost ds0 = comp_views(ds@);
    if !has_components(fs, &c) {
        fs.push(copy_components(&c, c.len()));
        assert(views(c@).subrange(0, c@.len() as int) =~= views(c@));
        assert(comp_views(fs@) =~= fs0.push(views(c@)));
        proof {
            lemma_push_distinct(fs0, views(c@));
            assert forall|x: Seq<Seq<char>>| comp_views(fs@).contains(x) <==> (fs0.contains(x) || x
                == components(p@)) by {
                lemma_push_contains(fs0, views(c@), x);
            }
        }
    }
    let has_parent = c.len() > 0 && !same_chars(&c[c.len() - 1], &chars_of("/"));
    proof {
        assert(parent(components(p@)) == if has_parent {
            Some(views(c@).drop_last())
        } else {
            None
        });
    }
    if has_parent {
        let par = copy_components(&c, c.len() - 1);
        assert(views(par@) == views(c@).drop_last());
        if !has_components(ds, &par) {
            ds.push(par);
            assert(comp_views(ds@) =~= ds0.push(views(par@)));
            proof {
                lemma_push_distinct(ds0, views(par@));
                assert forall|d: Seq<Seq<char>>| comp_views(ds@).contains(d) <==> (ds0.contains(d)
                    || parent(components(p@)) == Some(d)) by {
                    lemma_push_contains(ds0, views(par@), d);
                }
            }
        }
    }
}

/// What the watcher follows: the registry file and the given files (each
/// path kept once, compared as paths), and the directories that hold them
/// (each once), as component lists `(directories, files)`.
pub fn compute_watch_targets(registry_path: &str, files: &Vec<String>) -> (r: (
    Vec<Vec<Vec<char>>>,
    Vec<Vec<Vec<char>>>,
))
    ensures
        ({
            let all = seq![registry_path@] + crate::board::strs(files@);
            let fs = comp_views(r.1@);
            let ds = comp_views(r.0@);
            &&& same_set_once(fs, comps_of(all))
            &&& distinct(ds)
            &&& forall|d: Seq<Seq<char>>| ds.contains(d) <==> holds_dir(all, d)
        }),
{
    let ghost all = seq![registry_path@] + crate::board::strs(files@);
    let mut fs: Vec<Vec<Vec<char>>> = Vec::new();
    let mut ds: Vec<Vec<Vec<char>>> = Vec::new();
    assert(comp_views(fs@) =~= Seq::<Seq<Seq<char>>>::empty());
    assert(comp_views(ds@) =~= Seq::<Seq<Seq<char>>>::empty());
    add_target(&mut fs, &mut ds, &chars_of(registry_path));
    let mut k: usize = 0;
    proof {
        assert forall|x: Seq<Seq<char>>| comp_views(fs@).contains(x) <==> comps_of(all.subrange(0, 1)).contains(x) by {
            assert(comps_of(all.subrange(0, 1)) =~= seq![components(registry_path@)]);
            if x == components(registry_path@) {
                assert(comps_of(all.subrange(0, 1))[0] == x);
            }
        }
        assert forall|d: Seq<Seq<char>>| comp_views(ds@).contains(d) <==> exists|i: int|
            0 <= i < 1 && parent(components(#[trigger] all[i])) == Some(d) by {
            assert(all[0] == registry_path@);
        }
    }
    while k < files.len()
        invariant
            all == seq![registry_path@] + crate::board::strs(files@),
            k <= files@.len(),
            distinct(comp_views(fs@)),
            forall|x: Seq<Seq<char>>|
                comp_views(fs@).contains(x) <==> comps_of(all.subrange(0, k + 1)).contains(x),
            distinct(comp_views(ds@)),
            forall|d: Seq<Seq<char>>|
                comp_views(ds@).contains(d) <==> exists|i: int|
                    0 <= i < k + 1 && parent(components(#[trigger] all[i])) == Some(d),
        decreases files@.len() - k,
    {
        let p = chars_of(files[k].as_str());
        assert(p@ == all[k + 1]);
        let ghost fs0 = comp_views(fs@);
        let ghost ds0 = comp_views(ds@);
        add_target(&mut fs, &mut ds, &p);
        proof {
            let pre = comps_of(all.subrange(0, k + 1));
            assert(comps_of(all.subrange(0, k + 2)) =~= pre.push(components(all[k + 1])));
            assert forall|x: Seq<Seq<char>>| comp_views(fs@).contains(x) <==> comps_of(all.subrange(0, k + 2)).contains(x) by {
                lemma_push_contains(pre, components(all[k + 1]), x);
            }
            assert forall|d: Seq<Seq<char>>| comp_views(ds@).contains(d) <==> exists|i: int|
                0 <= i < k + 2 && parent(components(#[trigger] all[i])) == Some(d) by {
                if exists|i: int| 0 <= i < k + 2 && parent(components(#[trigger] all[i])) == Some(d) {
                    let i = choose|i: int| 0 <= i < k + 2 && parent(components(#[trigger] all[i])) == Some(d);
                    if i < k + 1 {
                        assert(ds0.contains(d));
                    }
                }
                if ds0.contains(d) {
                    let i = choose|i: int| 0 <= i < k + 1 && parent(components(#[trigger] all[i])) == Some(d);
                    assert(0 <= i < k + 2);
                }
            }
        }
        k = k + 1;
    }
    assert(all.subrange(0, files@.len() + 1int) =~= all);
    (ds, fs)
}


/// The file name of a path (see `file_name`): what `Path::file_name` gives.
pub fn path_file_name(p: &[char]) -> (r: Option<Vec<char>>)
    ensures
        r matches Some(n) ==> file_name(p@) == Some(n@),
        r is None ==> file_name(p@) is None,
{
    let c = path_components(p);
    if c.len() == 0 {
        return None;
    }
    let last = &c[c.len() - 1];
    if same_chars(last, &chars_of("/")) || same_chars(last, &chars_of(".")) || same_chars(
        last,
        &chars_of(".."),
    ) {
        None
    } else {
        Some(slice_of(last, 0, last.len()))
    }
}

/// Two paths name the same file: they are equal as paths, or both could be
/// canonicalized (`canon_a`, `canon_b`) to equal paths.
pub open spec fn same_file_spec(
    a: Seq<char>,
    b: Seq<char>,
    canon_a: Option<Seq<char>>,
    canon_b: Option<Seq<char>>,
) -> bool {
    components(a) == components(b) || match (canon_a, canon_b) {
        (Some(x), Some(y)) => components(x) == components(y),
        _ => false,
    }
}

fn same_path(a: &[char], b: &[char]) -> (r: bool)
    ensures
        r == (components(a@) == components(b@)),
{
    same_components(&path_components(a), &path_components(b))
}

/// Whether two paths name the same file (see `same_file_spec`), given their
/// canonical forms where those could be had.
pub fn same_file(a: &str, b: &str, canon_a: Option<&str>, canon_b: Option<&str>) -> (r: bool)
    ensures
        r == same_file_spec(
            a@,
            b@,
            crate::paths::opt_view(canon_a),
            crate::paths::opt_view(canon_b),
        ),
{
    if same_path(&chars_of(a), &chars_of(b)) {
        return true;
    }
    match (canon_a, canon_b) {
        (Some(x), Some(y)) => same_path(&chars_of(x), &chars_of(y)),
        _ => false,
    }
}

/// A tracked path with its canonical form, when it has one.
pub open spec fn watched_view(t: (String, Option<String>)) -> (Seq<char>, Option<Seq<char>>) {
    (t.0@, match t.1 {
        Some(c) => Some(c@),
        None => None,
    })
}

/// Whether an event's path `p` is one of the tracked files.
pub fn path_is_tracked(p: &str, canon_p: Option<&str>, watched: &Vec<(String, Option<String>)>) -> (r: bool)
    ensures
        r == exists|i: int|
            0 <= i < watched@.len() && same_file_spec(
                p@,
                (#[trigger] watched@[i]).0@,
                crate::paths::opt_view(canon_p),
                watched_view(watched@[i]).1,
            ),
{
    let mut k: usize = 0;
    while k < watched.len()
        invariant
            k <= watched@.len(),
            forall|i: int|
                0 <= i < k ==> !same_file_spec(
                    p@,
                    (#[trigger] watched@[i]).0@,
                    crate::paths::opt_view(canon_p),
                    watched_view(watched@[i]).1,
                ),
        decreases watched@.len() - k,
    {
        let (t, ct) = &watched[k];
        let ct_ref: Option<&str> = match ct {
            Some(c) => Some(c.as_str()),
            None => None,
        };
        if same_file(p, t.as_str(), canon_p, ct_ref) {
            return true;
        }
        k = k + 1;
    }
    false
}

/// The paths the watcher is given for a registry: the registry file, then
/// the watched files of its projects.
pub open spec fn watch_list(
    registry_path: Seq<char>,
    es: Seq<crate::board::RegistryEntry>,
    home: Option<Seq<char>>,
) -> Seq<Seq<char>> {
    seq![registry_path] + crate::board::watched(es, home)
}

/// Some path of `ps` lies directly in the directory `d`.
pub open spec fn holds_dir(ps: Seq<Seq<char>>, d: Seq<Seq<char>>) -> bool {
    exists|i: int| 0 <= i < ps.len() && parent(components(#[trigger] ps[i])) == Some(d)
}

/// When the registry gains a project, the watcher keeps following every file
/// and every directory it followed before, and follows four more paths.
pub proof fn lemma_targets_grow(
    registry_path: Seq<char>,
    es: Seq<crate::board::RegistryEntry>,
    e: crate::board::RegistryEntry,
    home: Option<Seq<char>>,
)
    ensures
        watch_list(registry_path, es.push(e), home).len() == watch_list(registry_path, es, home).len() + 4,
        forall|x: Seq<Seq<char>>|
            comps_of(watch_list(registry_path, es, home)).contains(x) ==> comps_of(
                watch_list(registry_path, es.push(e), home),
            ).contains(x),
        forall|d: Seq<Seq<char>>|
            #[trigger] holds_dir(watch_list(registry_path, es, home), d) ==> holds_dir(
                watch_list(registry_path, es.push(e), home),
                d,
            ),
{
    let before = watch_list(registry_path, es, home);
    let after = watch_list(registry_path, es.push(e), home);
    assert(es.push(e).drop_last() =~= es);
    assert(es.push(e).last() == e);
    assert(after.subrange(0, before.len() as int) =~= before);
    assert forall|x: Seq<Seq<char>>| comps_of(before).contains(x) implies comps_of(after).contains(x) by {
        let i = choose|i: int| 0 <= i < comps_of(before).len() && comps_of(before)[i] == x;
        assert(after[i] == before[i]);
        assert(comps_of(after)[i] == x);
    }
    assert forall|d: Seq<Seq<char>>| holds_dir(before, d) implies holds_dir(after, d) by {
        let i = choose|i: int| 0 <= i < before.len() && parent(components(#[trigger] before[i])) == Some(d);
        assert(after[i] == before[i]);
    }
}

/// What the watcher does with a batch of changed paths.
pub enum WatchAction {
    /// None of the paths is followed.
    Ignore,
    /// Tell the front end that the board changed.
    Refresh,
    /// The registry itself changed: recompute what to follow, then refresh.
    RebuildAndRefresh,
}

/// Some path of the batch (each with its canonical form) is one of `list`.
pub open spec fn batch_hits(
    batch: Seq<(String, Option<String>)>,
    list: Seq<(String, Option<String>)>,
) -> bool {
    exists|i: int, j: int|
        0 <= i < batch.len() && 0 <= j < list.len() && same_file_spec(
            (#[trigger] batch[i]).0@,
            (#[trigger] list[j]).0@,
            watched_view(batch[i]).1,
            watched_view(list[j]).1,
        )
}

/// The reaction to a batch: nothing unless a followed file changed; a
/// rebuild as well when the registry is among the changed paths.
pub open spec fn reaction(
    batch: Seq<(String, Option<String>)>,
    followed: Seq<(String, Option<String>)>,
    registry: (String, Option<String>),
) -> WatchAction {
    if !batch_hits(batch, followed) {
        WatchAction::Ignore
    } else if batch_hits(batch, seq![registry]) {
        WatchAction::RebuildAndRefresh
    } else {
        WatchAction::Refresh
    }
}

fn opt_as_str(o: &Option<String>) -> (r: Option<&str>)
    ensures
        crate::paths::opt_view(r) == match *o {
            Some(c) => Some(c@),
            None => None::<Seq<char>>,
        },
{
    match o {
        Some(c) => Some(c.as_str()),
        None => None,
    }
}

/// Whether a changed path of the batch is one of `list`.
fn any_hit(batch: &Vec<(String, Option<String>)>, list: &Vec<(String, Option<String>)>) -> (r: bool)
    ensures
        r == batch_hits(batch@, list@),
{
    let mut k: usize = 0;
    while k < batch.len()
        invariant
            k <= batch@.len(),
            forall|i: int, j: int|
                0 <= i < k && 0 <= j < list@.len() ==> !same_file_spec(
                    (#[trigger] batch@[i]).0@,
                    (#[trigger] list@[j]).0@,
                    watched_view(batch@[i]).1,
                    watched_view(list@[j]).1,
                ),
        decreases batch@.len() - k,
    {
        let (p, cp) = &batch[k];
        if path_is_tracked(p.as_str(), opt_as_str(cp), list) {
            return true;
        }
        k = k + 1;
    }
    false
}

/// How the watcher reacts to a batch of changed paths (see `reaction`).
pub fn react_to(
    batch: &Vec<(String, Option<String>)>,
    followed: &Vec<(String, Option<String>)>,
    registry: (String, Option<String>),
) -> (r: WatchAction)
    ensures
        r == reaction(batch@, followed@, registry),
{
    if !any_hit(batch, followed) {
        return WatchAction::Ignore;
    }
    let ghost reg = registry;
    let only = vec![registry];
    assert(only@ =~= seq![reg]);
    if any_hit(batch, &only) {
        WatchAction::RebuildAndRefresh
    } else {
        WatchAction::Refresh
    }
}

/// The directories to start and to stop watching when the watched set
/// becomes `desired`: those desired and not yet watched, in order, and those
/// watched and no longer desired, in order.
pub fn plan_rebuild(desired: &Vec<Vec<Vec<char>>>, watched: &Vec<Vec<Vec<char>>>) -> (r: (
    Vec<Vec<Vec<char>>>,
    Vec<Vec<Vec<char>>>,
))
    ensures
        comp_views(r.0@) == comp_views(desired@).filter(|d: Seq<Seq<char>>| !comp_views(watched@).contains(d)),
        comp_views(r.1@) == comp_views(watched@).filter(|d: Seq<Seq<char>>| !comp_views(desired@).contains(d)),
{
    (missing_from(desired, watched), missing_from(watched, desired))
}

/// The entries of `a` that `b` lacks, in order.
fn missing_from(a: &Vec<Vec<Vec<char>>>, b: &Vec<Vec<Vec<char>>>) -> (r: Vec<Vec<Vec<char>>>)
    ensures
        comp_views(r@) == comp_views(a@).filter(|d: Seq<Seq<char>>| !comp_views(b@).contains(d)),
{
    let ghost keep = |d: Seq<Seq<char>>| !comp_views(b@).contains(d);
    let mut out: Vec<Vec<Vec<char>>> = Vec::new();
    let mut k: usize = 0;
    while k < a.len()
        invariant
            k <= a@.len(),
            keep == (|d: Seq<Seq<char>>| !comp_views(b@).contains(d)),
            comp_views(out@) == comp_views(a@).subrange(0, k as int).filter(keep),
        decreases a@.len() - k,
    {
        let ghost pre = comp_views(a@).subrange(0, k as int);
        assert(comp_views(a@).subrange(0, k + 1) =~= pre.push(comp_views(a@)[k as int]));
        proof {
            reveal(Seq::filter);
            assert(pre.push(comp_views(a@)[k as int]).drop_last() =~= pre);
        }
        if !has_components(b, &a[k]) {
            let ghost before = comp_views(out@);
            out.push(copy_components(&a[k], a[k].len()));
            assert(views(a@[k as int]@).subrange(0, a@[k as int]@.len() as int) =~= views(a@[k as int]@));
            assert(comp_views(out@) =~= before.push(comp_views(a@)[k as int]));
        }
        k = k + 1;
    }
    assert(comp_views(a@).subrange(0, a@.len() as int) =~= comp_views(a@));
    out
}

// ───────────── a run of batches ─────────────

/// One thing the watcher does for a batch.
pub enum WatchEffect {
    /// Recompute what to follow and re-watch the directories.
    Rebuild,
    /// Tell the front end that the board changed.
    Emit,
}

/// A batch as the watcher receives it: its changed paths, or `None` when the
/// watcher reported an error instead.
pub open spec fn batch_view(batch: Option<&Vec<(String, Option<String>)>>) -> Option<Seq<(String, Option<String>)>> {
    match batch {
        Some(b) => Some(b@),
        None => None,
    }
}

/// What the watcher does for one batch, in order: nothing for an error or a
/// batch that touches no followed file; otherwise a rebuild when the
/// registry is touched, then one emit.
pub open spec fn effects_of(
    batch: Option<Seq<(String, Option<String>)>>,
    followed: Seq<(String, Option<String>)>,
    registry: (String, Option<String>),
) -> Seq<WatchEffect> {
    match batch {
        None => Seq::empty(),
        Some(b) => match reaction(b, followed, registry) {
            WatchAction::Ignore => Seq::empty(),
            WatchAction::Refresh => seq![WatchEffect::Emit],
            WatchAction::RebuildAndRefresh => seq![WatchEffect::Rebuild, WatchEffect::Emit],
        },
    }
}

/// The effects of one batch (see `effects_of`), for the watcher loop to
/// carry out in order.
pub fn batch_effects(
    batch: Option<&Vec<(String, Option<String>)>>,
    followed: &Vec<(String, Option<String>)>,
    registry: (String, Option<String>),
) -> (r: Vec<WatchEffect>)
    ensures
        r@ == effects_of(batch_view(batch), followed@, registry),
{
    match batch {
        None => Vec::new(),
        Some(b) => match react_to(b, followed, registry) {
            WatchAction::Ignore => Vec::new(),
            WatchAction::Refresh => {
                let v = vec![WatchEffect::Emit];
                assert(v@ =~= seq![WatchEffect::Emit]);
                v
            },
            WatchAction::RebuildAndRefresh => {
                let v = vec![WatchEffect::Rebuild, WatchEffect::Emit];
                assert(v@ =~= seq![WatchEffect::Rebuild, WatchEffect::Emit]);
                v
            },
        },
    }
}

/// The effects of the first `n` batches of a run, batch `k` arriving while
/// `followed[k]` is followed.
pub open spec fn run_effects(
    batches: Seq<Option<Seq<(String, Option<String>)>>>,
    followed: Seq<Seq<(String, Option<String>)>>,
    registry: (String, Option<String>),
    n: int,
) -> Seq<WatchEffect>
    decreases n,
{
    if n <= 0 {
        Seq::empty()
    } else {
        run_effects(batches, followed, registry, n - 1) + effects_of(batches[n - 1], followed[n - 1], registry)
    }
}

/// The number of emits among the effects.
pub open spec fn emits(s: Seq<WatchEffect>) -> nat
    decreases s.len(),
{
    if s.len() == 0 {
        0
    } else {
        emits(s.drop_last()) + if s.last() is Emit {
            1nat
        } else {
            0nat
        }
    }
}

/// The number of rebuilds among the effects.
pub open spec fn rebuilds(s: Seq<WatchEffect>) -> nat
    decreases s.len(),
{
    if s.len() == 0 {
        0
    } else {
        rebuilds(s.drop_last()) + if s.last() is Rebuild {
            1nat
        } else {
            0nat
        }
    }
}

/// Among the first `n` batches, those (not errors) that touch a followed file.
pub open spec fn hit_batches(
    batches: Seq<Option<Seq<(String, Option<String>)>>>,
    followed: Seq<Seq<(String, Option<String>)>>,
    n: int,
) -> nat
    decreases n,
{
    if n <= 0 {
        0
    } else {
        hit_batches(batches, followed, n - 1) + match batches[n - 1] {
            Some(b) => if batch_hits(b, followed[n - 1]) {
                1nat
            } else {
                0nat
            },
            None => 0nat,
        }
    }
}

/// Among the first `n` batches, those that touch a followed file and the
/// registry.
pub open spec fn registry_batches(
    batches: Seq<Option<Seq<(String, Option<String>)>>>,
    followed: Seq<Seq<(String, Option<String>)>>,
    registry: (String, Option<String>),
    n: int,
) -> nat
    decreases n,
{
    if n <= 0 {
        0
    } else {
        registry_batches(batches, followed, registry, n - 1) + match batches[n - 1] {
            Some(b) => if batch_hits(b, followed[n - 1]) && batch_hits(b, seq![registry]) {
                1nat
            } else {
                0nat
            },
            None => 0nat,
        }
    }
}

proof fn lemma_counts_add(a: Seq<WatchEffect>, b: Seq<WatchEffect>)
    ensures
        emits(a + b) == emits(a) + emits(b),
        rebuilds(a + b) == rebuilds(a) + rebuilds(b),
    decreases b.len(),
{
    if b.len() == 0 {
        assert(a + b =~= a);
    } else {
        lemma_counts_add(a, b.drop_last());
        assert((a + b).drop_last() =~= a + b.drop_last());
        assert((a + b).last() == b.last());
    }
}

proof fn lemma_batch_effects(
    batch: Option<Seq<(String, Option<String>)>>,
    followed: Seq<(String, Option<String>)>,
    registry: (String, Option<String>),
)
    ensures
        emits(effects_of(batch, followed, registry)) == match batch {
            Some(b) => if batch_hits(b, followed) {
                1nat
            } else {
                0nat
            },
            None => 0nat,
        },
        rebuilds(effects_of(batch, followed, registry)) == match batch {
            Some(b) => if batch_hits(b, followed) && batch_hits(b, seq![registry]) {
                1nat
            } else {
                0nat
            },
            None => 0nat,
        },
        forall|i: int|
            0 <= i < effects_of(batch, followed, registry).len() && (#[trigger] effects_of(
                batch,
                followed,
                registry,
            )[i]) is Rebuild ==> i + 1 < effects_of(batch, followed, registry).len() && effects_of(
                batch,
                followed,
                registry,
            )[i + 1] is Emit,
{
    let empty = Seq::<WatchEffect>::empty();
    let one = seq![WatchEffect::Emit];
    let two = seq![WatchEffect::Rebuild, WatchEffect::Emit];
    assert(emits(empty) == 0 && rebuilds(empty) == 0);
    assert(one.drop_last() =~= empty);
    assert(emits(one) == 1 && rebuilds(one) == 0);
    assert(two.drop_last() =~= seq![WatchEffect::Rebuild]);
    assert(seq![WatchEffect::Rebuild].drop_last() =~= empty);
    assert(emits(seq![WatchEffect::Rebuild]) == 0 && rebuilds(seq![WatchEffect::Rebuild]) == 1);
    assert(emits(two) == 1 && rebuilds(two) == 1);
}

#[verifier::spinoff_prover]
#[verifier::rlimit(40)]
proof fn lemma_run_prefix(
    batches: Seq<Option<Seq<(String, Option<String>)>>>,
    followed: Seq<Seq<(String, Option<String>)>>,
    registry: (String, Option<String>),
    n: int,
)
    requires
        0 <= n,
    ensures
        emits(run_effects(batches, followed, registry, n)) == hit_batches(batches, followed, n),
        rebuilds(run_effects(batches, followed, registry, n)) == registry_batches(batches, followed, registry, n),
        forall|i: int|
            0 <= i < run_effects(batches, followed, registry, n).len() && (
            #[trigger] run_effects(batches, followed, registry, n)[i]) is Rebuild ==> i + 1
                < run_effects(batches, followed, registry, n).len() && run_effects(
                batches,
                followed,
                registry,
                n,
            )[i + 1] is Emit,
    decreases n,
{
    if n > 0 {
        lemma_run_prefix(batches, followed, registry, n - 1);
        let pre = run_effects(batches, followed, registry, n - 1);
        let e = effects_of(batches[n - 1], followed[n - 1], registry);
        let run = run_effects(batches, followed, registry, n);
        assert(run == pre + e);
        lemma_counts_add(pre, e);
        lemma_batch_effects(batches[n - 1], followed[n - 1], registry);
        assert forall|i: int| 0 <= i < run.len() && (#[trigger] run[i]) is Rebuild implies i + 1 < run.len()
            && run[i + 1] is Emit by {
            if i < pre.len() {
                assert(run[i] == pre[i]);
                assert(pre[i] is Rebuild);
                assert(run[i + 1] == pre[i + 1]);
            } else {
                assert(run[i] == e[i - pre.len()]);
                assert(run[i + 1] == e[i + 1 - pre.len()]);
            }
        }
    }
}

/// The watcher over a run of batches (batch `k` arriving while `followed[k]`
/// is followed): it emits exactly once for each batch that is no error and
/// touches a followed file, and never otherwise; it rebuilds exactly for those
/// of them that touch the registry; and every rebuild comes just before that
/// batch's emit.
pub proof fn lemma_watch_run(
    batches: Seq<Option<Seq<(String, Option<String>)>>>,
    followed: Seq<Seq<(String, Option<String>)>>,
    registry: (String, Option<String>),
)
    requires
        followed.len() == batches.len(),
    ensures
        emits(run_effects(batches, followed, registry, batches.len() as int)) == hit_batches(
            batches,
            followed,
            batches.len() as int,
        ),
        rebuilds(run_effects(batches, followed, registry, batches.len() as int)) == registry_batches(
            batches,
            followed,
            registry,
            batches.len() as int,
        ),
        forall|i: int|
            0 <= i < run_effects(batches, followed, registry, batches.len() as int).len() && (
            #[trigger] run_effects(batches, followed, registry, batches.len() as int)[i]) is Rebuild
                ==> i + 1 < run_effects(batches, followed, registry, batches.len() as int).len()
                && run_effects(batches, followed, registry, batches.len() as int)[i + 1] is Emit,
{
    lemma_run_prefix(batches, followed, registry, batches.len() as int);
}

} // verus!
