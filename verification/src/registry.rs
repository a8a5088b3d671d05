//! Registering and removing projects: the registry document, its YAML text,
//! and the decisions of `add` and `remove`.
use vstd::prelude::*;
use crate::text::{
    char1, chars_from, chars_of, concat, contains, ends_with, find, find_in, has_suffix, in_set,
    same_chars, slice_of, string_of, trim, trim_of, views, trim_end_chars, trim_end_chars_of,
    trim_start_chars, trim_start_chars_of, lemma_trim_start_chars_suffix,
    lemma_trim_end_chars_prefix, is_ws, trim_start, trim_end,
};
use crate::board::{iso_date_shape, is_iso_date, opt_string, or_empty, strs};
use crate::sync::{detect_github, github_anchor};
use crate::watcher::{file_name, path_file_name};
use crate::yaml::{
    as_bool, as_str, as_u64, get, parse_yaml, untag, untag_ref, yaml_bool, yaml_document, yaml_get,
    yaml_str, yaml_u64, Yaml,
};

verus! {

// ───────────── the registry document ─────────────

/// One registered project, every field as the registry file holds it.
#[derive(Debug)]
pub struct ProjectEntry {
    pub id: String,
    pub name: String,
    pub path: String,
    pub progress_file: String,
    pub pinned: bool,
    pub added: String,
    /// `owner/repo@branch`: the GitHub repository and branch the server reads
    /// the project from; absent when unknown.
    pub github: Option<String>,
}

/// The registry: a format version and the projects in file order.
#[derive(Debug)]
pub struct RegistryDoc {
    pub version: u32,
    pub projects: Vec<ProjectEntry>,
}

/// A registered project as plain values.
pub struct EntryView {
    pub id: Seq<char>,
    pub name: Seq<char>,
    pub path: Seq<char>,
    pub progress_file: Seq<char>,
    pub pinned: bool,
    pub added: Seq<char>,
    pub github: Option<Seq<char>>,
}

impl View for ProjectEntry {
    type V = EntryView;

    open spec fn view(&self) -> EntryView {
        EntryView {
            id: self.id@,
            name: self.name@,
            path: self.path@,
            progress_file: self.progress_file@,
            pinned: self.pinned,
            added: self.added@,
            github: opt_string(self.github),
        }
    }
}

pub open spec fn entry_views(v: Seq<ProjectEntry>) -> Seq<EntryView> {
    v.map_values(|e: ProjectEntry| e@)
}

fn copy_string(s: &String) -> (r: String)
    ensures
        r@ == s@,
{
    string_of(&chars_of(s.as_str()))
}

fn copy_entry(e: &ProjectEntry) -> (r: ProjectEntry)
    ensures
        r@ == e@,
{
    ProjectEntry {
        id: copy_string(&e.id),
        name: copy_string(&e.name),
        path: copy_string(&e.path),
        progress_file: copy_string(&e.progress_file),
        pinned: e.pinned,
        added: copy_string(&e.added),
        github: match &e.github {
            Some(g) => Some(copy_string(g)),
            None => None,
        },
    }
}

// ───────────── numbers as text ─────────────

/// The decimal digits of `n`.
pub open spec fn dec(n: nat) -> Seq<char>
    decreases n,
{
    if n < 10 {
        seq![digit(n)]
    } else {
        dec(n / 10).push(digit(n % 10))
    }
}

/// The digit character of `d < 10`.
pub open spec fn digit(d: nat) -> char {
    ((d + 48) as u32) as char
}

pub proof fn lemma_dec_nonempty(n: nat)
    ensures
        dec(n).len() >= 1,
        n >= 10 ==> dec(n).len() >= 2,
    decreases n,
{
    if n >= 10 {
        lemma_dec_nonempty(n / 10);
    }
}

/// Distinct numbers have distinct decimal forms.
pub proof fn lemma_dec_injective(a: nat, b: nat)
    requires
        dec(a) == dec(b),
    ensures
        a == b,
    decreases a,
{
    lemma_dec_nonempty(a);
    lemma_dec_nonempty(b);
    if a >= 10 && b >= 10 {
        assert(dec(a).drop_last() == dec(a / 10));
        assert(dec(b).drop_last() == dec(b / 10));
        lemma_dec_injective(a / 10, b / 10);
        assert(dec(a).last() == digit(a % 10));
        assert(dec(b).last() == digit(b % 10));
        assert(digit(a % 10) as u32 == a % 10 + 48);
        assert(digit(b % 10) as u32 == b % 10 + 48);
    } else if a < 10 && b < 10 {
        assert(digit(a) == dec(a)[0]);
        assert(digit(a) as u32 == a + 48);
        assert(digit(b) as u32 == b + 48);
    }
}

fn digit_char(d: u32) -> (c: char)
    requires
        d < 10,
    ensures
        c == digit(d as nat),
{
    match d {
        0 => '0',
        1 => '1',
        2 => '2',
        3 => '3',
        4 => '4',
        5 => '5',
        6 => '6',
        7 => '7',
        8 => '8',
        _ => '9',
    }
}

/// The decimal digits of `n`.
pub fn decimal(n: u128) -> (r: Vec<char>)
    ensures
        r@ == dec(n as nat),
    decreases n,
{
    if n < 10 {
        char1(digit_char(n as u32))
    } else {
        let mut r = decimal(n / 10);
        r.push(digit_char((n % 10) as u32));
        r
    }
}


// ───────────── YAML scalars ─────────────

/// `s` with ASCII capitals made lower case (`str::to_ascii_lowercase`).
pub open spec fn ascii_lower(s: Seq<char>) -> Seq<char> {
    s.map_values(|c: char| if 'A' <= c <= 'Z' { ((c as u32) + 32) as char } else { c })
}

fn ascii_lower_exec(s: &[char]) -> (r: Vec<char>)
    ensures
        r@ == ascii_lower(s@),
{
    let mut out: Vec<char> = Vec::new();
    let mut k: usize = 0;
    while k < s.len()
        invariant
            k <= s@.len(),
            out@ == ascii_lower(s@.subrange(0, k as int)),
        decreases s@.len() - k,
    {
        let c = s[k];
        let l = if 'A' <= c && c <= 'Z' {
            ((c as u8) + 32) as char
        } else {
            c
        };
        out.push(l);
        assert(out@ =~= ascii_lower(s@.subrange(0, k + 1)));
        k = k + 1;
    }
    assert(s@.subrange(0, s@.len() as int) =~= s@);
    out
}

pub open spec fn is_digit(c: char) -> bool {
    '0' <= c <= '9'
}

pub open spec fn all_digits(s: Seq<char>) -> bool {
    forall|i: int| 0 <= i < s.len() ==> is_digit(#[trigger] s[i])
}

/// `s` without one leading sign.
pub open spec fn unsigned(s: Seq<char>) -> Seq<char> {
    if s.len() > 0 && (s[0] == '+' || s[0] == '-') {
        s.drop_first()
    } else {
        s
    }
}

/// `Digit+ | Digit+ '.' Digit* | Digit* '.' Digit+`.
pub open spec fn mantissa_ok(m: Seq<char>) -> bool {
    (m.len() > 0 && all_digits(m)) || exists|i: int|
        0 <= i < m.len() && m[i] == '.' && m.len() >= 2 && all_digits(m.subrange(0, i))
            && all_digits(m.subrange(i + 1, m.len() as int))
}

/// Empty, or `'e' Sign? Digit+`.
pub open spec fn exponent_ok(x: Seq<char>) -> bool {
    x.len() == 0 || (x[0] == 'e' && unsigned(x.drop_first()).len() > 0 && all_digits(
        unsigned(x.drop_first()),
    ))
}

/// Whether `s.parse::<f64>()` succeeds: the grammar `f64::from_str`
/// documents, `Sign? ('inf' | 'infinity' | 'nan' | Number)` with
/// `Number ::= Mantissa ('e' Sign? Digit+)?`, matched case-insensitively.
pub open spec fn float_syntax(s: Seq<char>) -> bool {
    let t = ascii_lower(unsigned(s));
    let e = match find(t, "e"@) {
        Some(i) => i,
        None => t.len() as int,
    };
    t == "inf"@ || t == "infinity"@ || t == "nan"@ || (mantissa_ok(t.subrange(0, e))
        && exponent_ok(t.subrange(e, t.len() as int)))
}

fn all_digits_exec(s: &[char], a: usize, b: usize) -> (r: bool)
    requires
        a <= b <= s@.len(),
    ensures
        r == all_digits(s@.subrange(a as int, b as int)),
{
    let mut k = a;
    while k < b
        invariant
            a <= k <= b <= s@.len(),
            forall|i: int| a <= i < k ==> is_digit(#[trigger] s@[i]),
        decreases b - k,
    {
        if !('0' <= s[k] && s[k] <= '9') {
            assert(!is_digit(s@.subrange(a as int, b as int)[k - a]));
            return false;
        }
        k = k + 1;
    }
    assert forall|i: int| 0 <= i < b - a implies is_digit(
        #[trigger] s@.subrange(a as int, b as int)[i],
    ) by {
        assert(s@.subrange(a as int, b as int)[i] == s@[a + i]);
    }
    true
}

fn unsigned_exec(s: &[char]) -> (r: Vec<char>)
    ensures
        r@ == unsigned(s@),
{
    if s.len() > 0 && (s[0] == '+' || s[0] == '-') {
        slice_of(s, 1, s.len())
    } else {
        chars_from(s)
    }
}

fn mantissa_ok_exec(m: &[char]) -> (r: bool)
    ensures
        r == mantissa_ok(m@),
{
    if m.len() > 0 && all_digits_exec(m, 0, m.len()) {
        assert(m@.subrange(0, m@.len() as int) =~= m@);
        return true;
    }
    assert(m@.subrange(0, m@.len() as int) =~= m@);
    let mut i: usize = 0;
    while i < m.len() && m[i] != '.'
        invariant
            i <= m@.len(),
            forall|k: int| 0 <= k < i ==> m@[k] != '.',
        decreases m@.len() - i,
    {
        i = i + 1;
    }
    if i == m.len() {
        // no dot at all, and not all digits
        assert forall|j: int| 0 <= j < m@.len() && m@[j] == '.' implies false by {}
        return false;
    }
    let r = m.len() >= 2 && all_digits_exec(m, 0, i) && all_digits_exec(m, i + 1, m.len());
    proof {
        if !r {
            assert forall|j: int|
                0 <= j < m@.len() && m@[j] == '.' && m@.len() >= 2 && all_digits(
                    m@.subrange(0, j),
                ) && all_digits(m@.subrange(j + 1, m@.len() as int)) implies false by {
                if j > i {
                    assert(m@.subrange(0, j)[i as int] == '.');
                    assert(!is_digit(m@.subrange(0, j)[i as int]));
                } else if j == i {
                } else {
                    assert(m@[j] != '.');
                }
            }
        }
    }
    r
}

fn exponent_ok_exec(x: &[char]) -> (r: bool)
    ensures
        r == exponent_ok(x@),
{
    if x.len() == 0 {
        return true;
    }
    if x[0] != 'e' {
        return false;
    }
    let u = unsigned_exec(&slice_of(x, 1, x.len()));
    assert(x@.subrange(1, x@.len() as int) =~= x@.drop_first());
    let r = u.len() > 0 && all_digits_exec(&u, 0, u.len());
    assert(u@.subrange(0, u@.len() as int) =~= u@);
    r
}

/// Whether `s.parse::<f64>()` succeeds (see `float_syntax`).
pub fn parses_as_float(s: &[char]) -> (r: bool)
    ensures
        r == float_syntax(s@),
{
    let t = ascii_lower_exec(&unsigned_exec(s));
    if same_chars(&t, &chars_of("inf")) || same_chars(&t, &chars_of("infinity")) || same_chars(
        &t,
        &chars_of("nan"),
    ) {
        return true;
    }
    let e = match find_in(&t, &chars_of("e"), 0) {
        Some(i) => {
            proof {
                crate::text::lemma_find_from_range(t@, "e"@, 0);
            }
            i
        },
        None => t.len(),
    };
    mantissa_ok_exec(&slice_of(&t, 0, e)) && exponent_ok_exec(&slice_of(&t, e, t.len()))
}

/// The words YAML would read as something other than a string.
pub open spec fn special_words() -> Seq<Seq<char>> {
    seq!["true"@, "false"@, "null"@, "~"@, "yes"@, "no"@, "on"@, "off"@]
}

/// Characters that cannot start a plain YAML scalar.
pub open spec fn quote_starters() -> Seq<char> {
    "!&*?|>%@`\"'#,[]{}"@
}

/// Whether a string must be quoted to be read back as the same string: it is
/// empty, a special word (ignoring ASCII case), a number, an ISO date, starts
/// with an indicator character, `-` or a space, or holds `": "` or `" #"` or
/// ends with `:`.
pub open spec fn must_quote(s: Seq<char>) -> bool {
    s.len() == 0 || special_words().contains(ascii_lower(s)) || float_syntax(s) || iso_date_shape(
        s,
    ) || quote_starters().contains(s[0]) || s[0] == '-' || s[0] == ' ' || contains(s, ": "@)
        || ends_with(s, ":"@) || contains(s, " #"@)
}

/// Whether `s` looks like an ISO date `YYYY-MM-DD`.
pub fn looks_like_iso_date(s: &[char]) -> (r: bool)
    ensures
        r == iso_date_shape(s@),
{
    is_iso_date(s)
}

fn special_word_list() -> (r: Vec<Vec<char>>)
    ensures
        views(r@) == special_words(),
{
    let mut v: Vec<Vec<char>> = Vec::new();
    v.push(chars_of("true"));
    v.push(chars_of("false"));
    v.push(chars_of("null"));
    v.push(chars_of("~"));
    v.push(chars_of("yes"));
    v.push(chars_of("no"));
    v.push(chars_of("on"));
    v.push(chars_of("off"));
    assert(views(v@) =~= special_words());
    v
}

fn contains_seq(list: &Vec<Vec<char>>, x: &[char]) -> (r: bool)
    ensures
        r == views(list@).contains(x@),
{
    let mut k: usize = 0;
    while k < list.len()
        invariant
            k <= list@.len(),
            forall|i: int| 0 <= i < k ==> views(list@)[i] != x@,
        decreases list@.len() - k,
    {
        if same_chars(&list[k], x) {
            assert(views(list@)[k as int] == x@);
            return true;
        }
        k = k + 1;
    }
    false
}

/// Whether `s` must be quoted in the registry file (see `must_quote`).
pub fn needs_quote(s: &[char]) -> (r: bool)
    ensures
        r == must_quote(s@),
{
    if s.len() == 0 {
        return true;
    }
    let words = special_word_list();
    if contains_seq(&words, &ascii_lower_exec(s)) {
        return true;
    }
    if parses_as_float(s) {
        return true;
    }
    if looks_like_iso_date(s) {
        return true;
    }
    let first = s[0];
    if in_set(&chars_of("!&*?|>%@`\"'#,[]{}"), first) || first == '-' || first == ' ' {
        return true;
    }
    find_in(s, &chars_of(": "), 0).is_some() || has_suffix(s, &chars_of(":")) || find_in(
        s,
        &chars_of(" #"),
        0,
    ).is_some()
}

/// `s` with each `'` doubled.
pub open spec fn double_quotes(s: Seq<char>) -> Seq<char>
    decreases s.len(),
{
    if s.len() == 0 {
        Seq::empty()
    } else {
        (if s[0] == '\'' {
            seq!['\'', '\'']
        } else {
            seq![s[0]]
        }) + double_quotes(s.drop_first())
    }
}

/// How the registry writes a string: single-quoted with inner quotes doubled
/// when it needs quoting, as is otherwise.
pub open spec fn scalar(s: Seq<char>) -> Seq<char> {
    if must_quote(s) {
        seq!['\''] + double_quotes(s) + seq!['\'']
    } else {
        s
    }
}

proof fn lemma_double_quotes_push(s: Seq<char>, c: char)
    ensures
        double_quotes(s.push(c)) == double_quotes(s) + (if c == '\'' {
            seq!['\'', '\'']
        } else {
            seq![c]
        }),
    decreases s.len(),
{
    if s.len() == 0 {
        assert(s.push(c).drop_first() =~= Seq::<char>::empty());
        assert(double_quotes(Seq::<char>::empty()) == Seq::<char>::empty());
        assert(s.push(c)[0] == c);
        assert(double_quotes(s) == Seq::<char>::empty());
        assert(double_quotes(s.push(c)) =~= (if c == '\'' {
            seq!['\'', '\'']
        } else {
            seq![c]
        }));
    } else {
        assert(s.push(c).drop_first() =~= s.drop_first().push(c));
        lemma_double_quotes_push(s.drop_first(), c);
        assert(double_quotes(s.push(c)) =~= double_quotes(s) + (if c == '\'' {
            seq!['\'', '\'']
        } else {
            seq![c]
        }));
    }
}

/// The text of a quoted scalar's inside with doubled quotes made single.
pub open spec fn undouble(t: Seq<char>) -> Seq<char>
    decreases t.len(),
{
    if t.len() == 0 {
        Seq::empty()
    } else if t.len() >= 2 && t[0] == '\'' && t[1] == '\'' {
        seq!['\''] + undouble(t.subrange(2, t.len() as int))
    } else {
        seq![t[0]] + undouble(t.drop_first())
    }
}

/// The library's own model of reading a scalar in YAML's single-quoted style:
/// a single-quoted text loses its quotes and its doubled quotes become single;
/// any other text is taken as it is. It is not tied to `read_registry`, which
/// reads through `serde_yaml`.
pub open spec fn read_scalar(t: Seq<char>) -> Seq<char> {
    if t.len() >= 2 && t[0] == '\'' && t.last() == '\'' {
        undouble(t.subrange(1, t.len() - 1))
    } else {
        t
    }
}

proof fn lemma_undouble_double(s: Seq<char>)
    ensures
        undouble(double_quotes(s)) == s,
    decreases s.len(),
{
    if s.len() > 0 {
        lemma_undouble_double(s.drop_first());
        let d = double_quotes(s);
        if s[0] == '\'' {
            assert(d.subrange(2, d.len() as int) =~= double_quotes(s.drop_first()));
        } else {
            assert(d.drop_first() =~= double_quotes(s.drop_first()));
        }
        assert(s =~= seq![s[0]] + s.drop_first());
    }
}

/// Under the model `read_scalar` of single-quoted scalars, what the registry
/// writes for a string is that string again. (Reading the file itself goes
/// through `serde_yaml`, of which nothing is proved here.)
pub proof fn lemma_scalar_reads_back(s: Seq<char>)
    ensures
        read_scalar(scalar(s)) == s,
{
    if must_quote(s) {
        let t = scalar(s);
        assert(t.subrange(1, t.len() - 1) =~= double_quotes(s));
        lemma_undouble_double(s);
    } else {
        if s.len() >= 2 && s[0] == '\'' {
            assert(quote_starters().contains(s[0])) by {
                reveal_strlit("!&*?|>%@`\"'#,[]{}");
                assert(quote_starters().len() == 17);
                assert(quote_starters()[10] == s[0]);
            }
        }
    }
}

fn double_quotes_exec(s: &[char]) -> (r: Vec<char>)
    ensures
        r@ == double_quotes(s@),
{
    let mut out: Vec<char> = Vec::new();
    let mut k: usize = 0;
    while k < s.len()
        invariant
            k <= s@.len(),
            out@ == double_quotes(s@.subrange(0, k as int)),
        decreases s@.len() - k,
    {
        proof {
            assert(s@.subrange(0, k + 1) =~= s@.subrange(0, k as int).push(s@[k as int]));
            lemma_double_quotes_push(s@.subrange(0, k as int), s@[k as int]);
        }
        if s[k] == '\'' {
            out.push('\'');
            out.push('\'');
        } else {
            out.push(s[k]);
        }
        k = k + 1;
        assert(out@ =~= double_quotes(s@.subrange(0, k as int)));
    }
    assert(s@.subrange(0, s@.len() as int) =~= s@);
    out
}

/// How the registry writes a string (see `scalar`).
pub fn yaml_scalar(s: &[char]) -> (r: Vec<char>)
    ensures
        r@ == scalar(s@),
{
    if needs_quote(s) {
        let mut out = char1('\'');
        out = concat(&out, &double_quotes_exec(s));
        out.push('\'');
        out
    } else {
        chars_from(s)
    }
}


// ───────────── writing the registry ─────────────

/// The lines of one project in the registry file, fields in a fixed order.
pub open spec fn entry_block(e: EntryView) -> Seq<char> {
    "- id: "@ + scalar(e.id) + "\n"@ + "  name: "@ + scalar(e.name) + "\n"@ + "  path: "@ + scalar(
        e.path,
    ) + "\n"@ + "  progress_file: "@ + scalar(e.progress_file) + "\n"@ + "  pinned: "@ + (if e.pinned {
        "true"@
    } else {
        "false"@
    }) + "\n"@ + "  added: "@ + scalar(e.added) + "\n"@ + match e.github {
        Some(g) => "  github: "@ + scalar(g) + "\n"@,
        None => Seq::empty(),
    }
}

pub open spec fn entry_blocks(es: Seq<EntryView>) -> Seq<char>
    decreases es.len(),
{
    if es.len() == 0 {
        Seq::empty()
    } else {
        entry_blocks(es.drop_last()) + entry_block(es.last())
    }
}

/// The registry file's text: `version: N`, then `projects: []` or
/// `projects:` followed by each project's lines.
pub open spec fn registry_text(version: u32, es: Seq<EntryView>) -> Seq<char> {
    "version: "@ + dec(version as nat) + "\n"@ + if es.len() == 0 {
        "projects: []\n"@
    } else {
        "projects:\n"@ + entry_blocks(es)
    }
}

fn field_line(out: &Vec<char>, label: &str, value: &[char]) -> (r: Vec<char>)
    ensures
        r@ == out@ + label@ + value@ + "\n"@,
{
    let a = concat(out, &chars_of(label));
    let b = concat(&a, value);
    concat(&b, &chars_of("\n"))
}

fn entry_block_exec(e: &ProjectEntry) -> (r: Vec<char>)
    ensures
        r@ == entry_block(e@),
{
    let out: Vec<char> = Vec::new();
    let out = field_line(&out, "- id: ", &yaml_scalar(&chars_of(e.id.as_str())));
    let out = field_line(&out, "  name: ", &yaml_scalar(&chars_of(e.name.as_str())));
    let out = field_line(&out, "  path: ", &yaml_scalar(&chars_of(e.path.as_str())));
    let out = field_line(
        &out,
        "  progress_file: ",
        &yaml_scalar(&chars_of(e.progress_file.as_str())),
    );
    let pinned = if e.pinned {
        chars_of("true")
    } else {
        chars_of("false")
    };
    let out = field_line(&out, "  pinned: ", &pinned);
    let out = field_line(&out, "  added: ", &yaml_scalar(&chars_of(e.added.as_str())));
    let out = match &e.github {
        Some(g) => field_line(&out, "  github: ", &yaml_scalar(&chars_of(g.as_str()))),
        None => out,
    };
    assert(out@ =~= entry_block(e@));
    out
}

/// The registry file's text for a document (see `registry_text`).
pub fn render_registry(doc: &RegistryDoc) -> (r: String)
    ensures
        r@ == registry_text(doc.version, entry_views(doc.projects@)),
{
    let head = field_line(&Vec::new(), "version: ", &decimal(doc.version as u128));
    if doc.projects.len() == 0 {
        let out = concat(&head, &chars_of("projects: []\n"));
        assert(out@ =~= registry_text(doc.version, entry_views(doc.projects@)));
        return string_of(&out);
    }
    let mut blocks: Vec<char> = Vec::new();
    let mut k: usize = 0;
    while k < doc.projects.len()
        invariant
            k <= doc.projects@.len(),
            blocks@ == entry_blocks(entry_views(doc.projects@).subrange(0, k as int)),
        decreases doc.projects@.len() - k,
    {
        blocks = concat(&blocks, &entry_block_exec(&doc.projects[k]));
        assert(entry_views(doc.projects@).subrange(0, k + 1).drop_last() =~= entry_views(
            doc.projects@,
        ).subrange(0, k as int));
        k = k + 1;
    }
    assert(entry_views(doc.projects@).subrange(0, doc.projects@.len() as int) =~= entry_views(
        doc.projects@,
    ));
    let out = concat(&concat(&head, &chars_of("projects:\n")), &blocks);
    assert(out@ =~= registry_text(doc.version, entry_views(doc.projects@)));
    string_of(&out)
}

// ───────────── reading the registry ─────────────

/// The registry file as the app found it.
pub enum RegistryText {
    /// There is no registry file.
    Absent,
    /// The file could not be read; the error's text.
    Unreadable(String),
    /// The file's contents.
    Text(String),
}

/// A string field of a mapping, if it is there and a string.
pub open spec fn str_field(m: Yaml, key: Seq<char>) -> Option<Seq<char>> {
    match yaml_get(m, key) {
        Some(x) => yaml_str(x),
        None => None,
    }
}

/// A project as the registry describes it: missing or non-string fields are
/// empty, except `progress_file` (`PROGRESS.md`); `pinned` is false unless it
/// is the boolean `true`.
pub open spec fn entry_of_yaml(m: Yaml) -> EntryView {
    EntryView {
        id: or_empty(str_field(m, "id"@)),
        name: or_empty(str_field(m, "name"@)),
        path: or_empty(str_field(m, "path"@)),
        progress_file: match str_field(m, "progress_file"@) {
            Some(p) => p,
            None => "PROGRESS.md"@,
        },
        pinned: match yaml_get(m, "pinned"@) {
            Some(x) => match yaml_bool(x) {
                Some(b) => b,
                None => false,
            },
            None => false,
        },
        added: or_empty(str_field(m, "added"@)),
        github: str_field(m, "github"@),
    }
}

pub open spec fn is_mapping(v: Yaml) -> bool {
    untag(v) is Mapping
}

/// The registry a YAML document describes: `(version, projects)`.
/// - a null document is an empty registry of version 1;
/// - a document that is not a mapping, or a `projects` list with an item that
///   is not a mapping, is an error;
/// - `version` is the document's (cut to 32 bits) or 1; `projects` is empty
///   when absent or not a list.
pub open spec fn registry_of_yaml(v: Yaml) -> Result<(u32, Seq<EntryView>), Seq<char>> {
    if untag(v) is Null {
        Ok((1u32, Seq::empty()))
    } else if !is_mapping(v) {
        Err("registry 格式异常，期望映射"@)
    } else {
        let version: u32 = match yaml_get(v, "version"@) {
            Some(x) => match yaml_u64(x) {
                Some(n) => n as u32,
                None => 1u32,
            },
            None => 1u32,
        };
        match yaml_get(v, "projects"@) {
            Some(x) => match untag(x) {
                Yaml::Sequence(items) => if exists|i: int|
                    0 <= i < items@.len() && !is_mapping(#[trigger] items@[i]) {
                    Err("registry 的某个 project 不是映射"@)
                } else {
                    Ok((version, items@.map_values(|m: Yaml| entry_of_yaml(m))))
                },
                _ => Ok((version, Seq::empty())),
            },
            None => Ok((version, Seq::empty())),
        }
    }
}

/// The registry a file's text holds: `registry 解析失败: ` and the parser's
/// message when the text is not YAML, otherwise see `registry_of_yaml`.
pub open spec fn registry_of_text(text: Seq<char>) -> Result<(u32, Seq<EntryView>), Seq<char>> {
    match yaml_document(text) {
        Err(e) => Err("registry 解析失败: "@ + e),
        Ok(v) => registry_of_yaml(v),
    }
}

/// The document a registry outcome gives: an absent file is an empty
/// registry of version 1; an unreadable one is `读取 registry 失败: ` and the
/// error.
pub open spec fn registry_of(t: RegistryText) -> Result<(u32, Seq<EntryView>), Seq<char>> {
    match t {
        RegistryText::Absent => Ok((1u32, Seq::empty())),
        RegistryText::Unreadable(e) => Err("读取 registry 失败: "@ + e@),
        RegistryText::Text(s) => registry_of_text(s@),
    }
}

/// A document's `(version, projects)`.
pub open spec fn doc_view(d: RegistryDoc) -> (u32, Seq<EntryView>) {
    (d.version, entry_views(d.projects@))
}

/// The result of reading, as plain values.
pub open spec fn read_view(r: Result<RegistryDoc, String>) -> Result<(u32, Seq<EntryView>), Seq<char>> {
    match r {
        Ok(d) => Ok(doc_view(d)),
        Err(e) => Err(e@),
    }
}

fn str_field_exec(m: &Yaml, key: &str) -> (r: Option<String>)
    ensures
        match r {
            Some(s) => str_field(*m, key@) == Some(s@),
            None => str_field(*m, key@) is None,
        },
{
    match get(m, &chars_of(key)) {
        Some(x) => match as_str(x) {
            Some(s) => Some(copy_string(s)),
            None => None,
        },
        None => None,
    }
}

fn field_or_empty(m: &Yaml, key: &str) -> (r: String)
    ensures
        r@ == or_empty(str_field(*m, key@)),
{
    match str_field_exec(m, key) {
        Some(s) => s,
        None => String::new(),
    }
}

fn entry_from_yaml(m: &Yaml) -> (r: ProjectEntry)
    ensures
        r@ == entry_of_yaml(*m),
{
    let pinned = match get(m, &chars_of("pinned")) {
        Some(x) => match as_bool(x) {
            Some(b) => b,
            None => false,
        },
        None => false,
    };
    ProjectEntry {
        id: field_or_empty(m, "id"),
        name: field_or_empty(m, "name"),
        path: field_or_empty(m, "path"),
        progress_file: match str_field_exec(m, "progress_file") {
            Some(p) => p,
            None => string_of(&chars_of("PROGRESS.md")),
        },
        pinned,
        added: field_or_empty(m, "added"),
        github: str_field_exec(m, "github"),
    }
}

fn is_mapping_exec(v: &Yaml) -> (r: bool)
    ensures
        r == is_mapping(*v),
{
    match untag_ref(v) {
        Yaml::Mapping(_) => true,
        _ => false,
    }
}

fn empty_doc() -> (r: RegistryDoc)
    ensures
        doc_view(r) == (1u32, Seq::<EntryView>::empty()),
{
    let r = RegistryDoc { version: 1, projects: Vec::new() };
    assert(entry_views(r.projects@) =~= Seq::<EntryView>::empty());
    r
}

/// The registry a parsed YAML document describes (see `registry_of_yaml`).
pub fn registry_from_yaml(v: &Yaml) -> (r: Result<RegistryDoc, String>)
    ensures
        read_view(r) == registry_of_yaml(*v),
{
    let u = untag_ref(v);
    if let Yaml::Null = u {
        return Ok(empty_doc());
    }
    if !is_mapping_exec(v) {
        return Err(string_of(&chars_of("registry 格式异常，期望映射")));
    }
    let version: u32 = match get(v, &chars_of("version")) {
        Some(x) => match as_u64(x) {
            Some(n) => #[verifier::truncate] (n as u32),
            None => 1,
        },
        None => 1,
    };
    let mut projects: Vec<ProjectEntry> = Vec::new();
    match get(v, &chars_of("projects")) {
        Some(x) => match untag_ref(x) {
            Yaml::Sequence(items) => {
                let mut k: usize = 0;
                while k < items.len()
                    invariant
                        k <= items@.len(),
                        !(untag(*v) is Null),
                        is_mapping(*v),
                        yaml_get(*v, "projects"@) == Some(*x),
                        untag(*x) == Yaml::Sequence(*items),
                        forall|i: int| 0 <= i < k ==> is_mapping(#[trigger] items@[i]),
                        entry_views(projects@) == items@.subrange(0, k as int).map_values(
                            |m: Yaml| entry_of_yaml(m),
                        ),
                    decreases items@.len() - k,
                {
                    if !is_mapping_exec(&items[k]) {
                        return Err(string_of(&chars_of("registry 的某个 project 不是映射")));
                    }
                    let e = entry_from_yaml(&items[k]);
                    let ghost before = entry_views(projects@);
                    projects.push(e);
                    assert(entry_views(projects@) =~= before.push(entry_of_yaml(items@[k as int])));
                    assert(items@.subrange(0, k + 1).map_values(|m: Yaml| entry_of_yaml(m))
                        =~= items@.subrange(0, k as int).map_values(|m: Yaml| entry_of_yaml(m)).push(
                        entry_of_yaml(items@[k as int]),
                    ));
                    k = k + 1;
                }
                assert(items@.subrange(0, items@.len() as int) =~= items@);
            },
            _ => {
                assert(entry_views(projects@) =~= Seq::<EntryView>::empty());
            },
        },
        None => {
            assert(entry_views(projects@) =~= Seq::<EntryView>::empty());
        },
    }
    Ok(RegistryDoc { version, projects })
}

/// Reads the registry from what the app found (see `registry_of`).
pub fn read_registry(t: &RegistryText) -> (r: Result<RegistryDoc, String>)
    ensures
        read_view(r) == registry_of(*t),
{
    match t {
        RegistryText::Absent => Ok(empty_doc()),
        RegistryText::Unreadable(e) => Err(
            string_of(&concat(&chars_of("读取 registry 失败: "), &chars_of(e.as_str()))),
        ),
        RegistryText::Text(s) => match parse_yaml(s.as_str()) {
            Err(e) => Err(
                string_of(&concat(&chars_of("registry 解析失败: "), &chars_of(e.as_str()))),
            ),
            Ok(v) => registry_from_yaml(&v),
        },
    }
}


// ───────────── project ids ─────────────

/// What `str::to_lowercase` makes of a text: its Unicode lower-case mapping,
/// which depends on the text alone.
pub uninterp spec fn lowercase(s: Seq<char>) -> Seq<char>;

/// `str::to_lowercase`. Claimed: the result is `lowercase(s)`; and a text
/// made only of ASCII digits, `a`–`z`, `-` and CJK ideographs, which have no
/// lower-case mapping of their own, comes back unchanged (the documentation's
/// own example: "Languages without case are not changed"). Nothing more is
/// stated of Unicode case mapping.
#[verifier::external_body]
fn to_lowercase(s: &str) -> (r: String)
    ensures
        r@ == lowercase(s@),
        (forall|i: int| 0 <= i < s@.len() ==> id_char(#[trigger] s@[i]) || s@[i] == '-') ==> r@
            == s@,
{
    s.to_lowercase()
}

/// Characters an id keeps: ASCII digits, `a`–`z`, and CJK unified ideographs
/// (U+4E00–U+9FFF).
pub open spec fn id_char(c: char) -> bool {
    ('0' <= c <= '9') || ('a' <= c <= 'z') || ('\u{4e00}' <= c <= '\u{9fff}')
}

/// The text with each run of other characters replaced by one `-`.
pub open spec fn collapse(s: Seq<char>) -> Seq<char>
    decreases s.len(),
{
    if s.len() == 0 {
        Seq::empty()
    } else {
        let o = collapse(s.drop_last());
        if id_char(s.last()) {
            o.push(s.last())
        } else if o.len() > 0 && o.last() == '-' {
            o
        } else {
            o.push('-')
        }
    }
}

/// The kebab-case id of a directory name: trimmed, lower-cased, each run of
/// characters other than `[0-9a-z]` and CJK ideographs made one `-`, leading
/// and trailing `-` removed; `project` when nothing is left.
pub open spec fn kebab(name: Seq<char>) -> Seq<char> {
    kebab_lowered(lowercase(trim(name)))
}

/// The kebab-case id of an already trimmed and lower-cased name: each run of
/// characters other than `[0-9a-z]` and CJK ideographs made one `-`, leading
/// and trailing `-` removed; `project` when nothing is left.
pub open spec fn kebab_lowered(lower: Seq<char>) -> Seq<char> {
    let k = trim_start_chars(trim_end_chars(collapse(lower), seq!['-']), seq!['-']);
    if k.len() == 0 {
        "project"@
    } else {
        k
    }
}

/// A well-formed id: not empty, made of id characters and single `-`
/// between them.
pub open spec fn well_formed_id(s: Seq<char>) -> bool {
    &&& s.len() > 0
    &&& s[0] != '-'
    &&& s.last() != '-'
    &&& forall|i: int| 0 <= i < s.len() ==> id_char(#[trigger] s[i]) || s[i] == '-'
    &&& forall|i: int| 0 <= i < s.len() - 1 ==> !(#[trigger] s[i] == '-' && s[i + 1] == '-')
}

proof fn lemma_collapse_shape(s: Seq<char>)
    ensures
        forall|i: int| 0 <= i < collapse(s).len() ==> id_char(#[trigger] collapse(s)[i]) || collapse(s)[i] == '-',
        forall|i: int|
            0 <= i < collapse(s).len() - 1 ==> !(#[trigger] collapse(s)[i] == '-' && collapse(
                s,
            )[i + 1] == '-'),
    decreases s.len(),
{
    if s.len() > 0 {
        lemma_collapse_shape(s.drop_last());
        let o = collapse(s.drop_last());
        let c = collapse(s);
        assert forall|i: int| 0 <= i < c.len() implies id_char(#[trigger] c[i]) || c[i] == '-' by {
            if i < o.len() {
                assert(c[i] == o[i]);
            }
        }
        assert forall|i: int| 0 <= i < c.len() - 1 implies !(#[trigger] c[i] == '-' && c[i + 1]
            == '-') by {
            if i + 1 < o.len() {
                assert(c[i] == o[i] && c[i + 1] == o[i + 1]);
            } else {
                assert(c[i] == o[i]);
                assert(i == o.len() - 1);
            }
        }
    }
}

/// An id's shape survives removing its first or last characters.
proof fn lemma_shape_subrange(s: Seq<char>, a: int, b: int)
    requires
        0 <= a <= b <= s.len(),
        forall|i: int| 0 <= i < s.len() ==> id_char(#[trigger] s[i]) || s[i] == '-',
        forall|i: int| 0 <= i < s.len() - 1 ==> !(#[trigger] s[i] == '-' && s[i + 1] == '-'),
    ensures
        ({
            let t = s.subrange(a, b);
            &&& forall|i: int| 0 <= i < t.len() ==> id_char(#[trigger] t[i]) || t[i] == '-'
            &&& forall|i: int| 0 <= i < t.len() - 1 ==> !(#[trigger] t[i] == '-' && t[i + 1] == '-')
        }),
{
    let t = s.subrange(a, b);
    assert forall|i: int| 0 <= i < t.len() - 1 implies !(#[trigger] t[i] == '-' && t[i + 1] == '-') by {
        assert(t[i] == s[a + i] && t[i + 1] == s[a + i + 1]);
    }
    assert forall|i: int| 0 <= i < t.len() implies id_char(#[trigger] t[i]) || t[i] == '-' by {
        assert(t[i] == s[a + i]);
    }
}

/// Every id `kebab` produces is well formed.
pub proof fn lemma_kebab_well_formed(name: Seq<char>)
    ensures
        well_formed_id(kebab(name)),
{
    lemma_kebab_lowered_well_formed(lowercase(trim(name)));
}

/// Every id `kebab_lowered` produces is well formed.
pub proof fn lemma_kebab_lowered_well_formed(lower: Seq<char>)
    ensures
        well_formed_id(kebab_lowered(lower)),
{
    let c = collapse(lower);
    lemma_collapse_shape(lower);
    let e = trim_end_chars(c, seq!['-']);
    lemma_trim_end_chars_prefix(c, seq!['-']);
    let k1 = choose|k: int| 0 <= k <= c.len() && e == c.subrange(0, k);
    lemma_shape_subrange(c, 0, k1);
    let t = trim_start_chars(e, seq!['-']);
    lemma_trim_start_chars_suffix(e, seq!['-']);
    let k2 = choose|k: int| 0 <= k <= e.len() && t == e.subrange(k, e.len() as int);
    lemma_shape_subrange(e, k2, e.len() as int);
    if t.len() == 0 {
        reveal_strlit("project");
        assert(well_formed_id("project"@));
    } else {
        assert(t[0] != '-') by {
            assert(seq!['-'][0] == '-');
        }
        assert(t.last() == e.last());
        assert(e.last() != '-') by {
            assert(seq!['-'][0] == '-');
        }
    }
}

/// `collapse` leaves a text of id characters and single inner `-` as it is.
proof fn lemma_collapse_fixed(t: Seq<char>)
    requires
        forall|i: int| 0 <= i < t.len() ==> id_char(#[trigger] t[i]) || t[i] == '-',
        forall|i: int| 0 <= i < t.len() - 1 ==> !(#[trigger] t[i] == '-' && t[i + 1] == '-'),
        t.len() > 0 ==> t[0] != '-',
    ensures
        collapse(t) == t,
    decreases t.len(),
{
    if t.len() > 0 {
        let p = t.drop_last();
        assert forall|i: int| 0 <= i < p.len() implies id_char(#[trigger] p[i]) || p[i] == '-' by {
            assert(p[i] == t[i]);
        }
        assert forall|i: int| 0 <= i < p.len() - 1 implies !(#[trigger] p[i] == '-' && p[i + 1] == '-') by {
            assert(p[i] == t[i] && p[i + 1] == t[i + 1]);
        }
        lemma_collapse_fixed(p);
        if !id_char(t.last()) {
            assert(t.len() >= 2);
            assert(p.last() == t[t.len() - 2]);
        }
        assert(p.push(t.last()) =~= t);
    }
}

/// A well-formed id is not changed by trimming.
proof fn lemma_trim_id(s: Seq<char>)
    requires
        well_formed_id(s),
    ensures
        trim(s) == s,
{
    assert(!is_ws(s[0])) by {
        assert(id_char(s[0]) || s[0] == '-');
    }
    assert(!is_ws(s.last())) by {
        assert(id_char(s[s.len() - 1]) || s[s.len() - 1] == '-');
    }
    assert(trim_start(s) == s);
    assert(trim_end(s) == s);
}

/// A well-formed id that lower-casing leaves alone is its own kebab-case id.
proof fn lemma_kebab_fixed(s: Seq<char>)
    requires
        well_formed_id(s),
        lowercase(s) == s,
    ensures
        kebab(s) == s,
{
    lemma_trim_id(s);
    lemma_collapse_fixed(s);
    assert(!seq!['-'].contains(s.last())) by {
        if seq!['-'].contains(s.last()) {
            let k = choose|k: int| 0 <= k < 1 && seq!['-'][k] == s.last();
            assert(seq!['-'][k] == '-');
        }
    }
    assert(!seq!['-'].contains(s[0])) by {
        if seq!['-'].contains(s[0]) {
            let k = choose|k: int| 0 <= k < 1 && seq!['-'][k] == s[0];
            assert(seq!['-'][k] == '-');
        }
    }
    assert(trim_end_chars(s, seq!['-']) == s);
    assert(trim_start_chars(s, seq!['-']) == s);
}

fn id_char_exec(c: char) -> (r: bool)
    ensures
        r == id_char(c),
{
    ('0' <= c && c <= '9') || ('a' <= c && c <= 'z') || ('\u{4e00}' <= c && c <= '\u{9fff}')
}

/// The kebab-case id of a directory name (see `kebab`); always well formed,
/// and a well-formed id is its own id, so `kebab_case` is idempotent:
/// `kebab_case(&kebab_case(x)) == kebab_case(x)`.
pub fn kebab_case(name: &str) -> (r: String)
    ensures
        r@ == kebab(name@),
        well_formed_id(r@),
        well_formed_id(name@) ==> r@ == name@,
{
    let t = trim_of(&chars_of(name));
    let lower = chars_of(to_lowercase(string_of(&t).as_str()).as_str());
    proof {
        if well_formed_id(name@) {
            lemma_trim_id(name@);
            assert(forall|i: int| 0 <= i < t@.len() ==> id_char(#[trigger] t@[i]) || t@[i] == '-');
            lemma_kebab_fixed(name@);
        }
    }
    kebab_of_lowered(&lower)
}

/// The kebab-case id of a name that is already trimmed and lower-cased (see
/// `kebab_lowered`); always well formed.
pub fn kebab_of_lowered(lower: &[char]) -> (r: String)
    ensures
        r@ == kebab_lowered(lower@),
        well_formed_id(r@),
{
    let mut out: Vec<char> = Vec::new();
    let mut k: usize = 0;
    while k < lower.len()
        invariant
            k <= lower@.len(),
            out@ == collapse(lower@.subrange(0, k as int)),
        decreases lower@.len() - k,
    {
        assert(lower@.subrange(0, k + 1).drop_last() =~= lower@.subrange(0, k as int));
        let c = lower[k];
        if id_char_exec(c) {
            out.push(c);
        } else if out.len() > 0 && out[out.len() - 1] == '-' {
        } else {
            out.push('-');
        }
        k = k + 1;
    }
    assert(lower@.subrange(0, lower@.len() as int) =~= lower@);
    let dash = char1('-');
    let trimmed = trim_start_chars_of(&trim_end_chars_of(&out, &dash), &dash);
    proof {
        lemma_kebab_lowered_well_formed(lower@);
    }
    if trimmed.len() == 0 {
        string_of(&chars_of("project"))
    } else {
        string_of(&trimmed)
    }
}


// ───────────── add and remove ─────────────

/// What the app found out about the path being added.
pub struct PathFacts {
    pub exists: bool,
    pub is_dir: bool,
    /// The canonical absolute path (the expanded path when it cannot be
    /// canonicalized).
    pub abs: String,
}

/// What `add` reports.
#[derive(Debug)]
pub struct AddResult {
    pub id: String,
    pub name: String,
    pub path: String,
    /// Whether a progress file template was written (never, now).
    pub created_template: bool,
}

pub open spec fn ids_of(es: Seq<EntryView>) -> Seq<Seq<char>> {
    es.map_values(|e: EntryView| e.id)
}

/// `base-k`.
pub open spec fn candidate(base: Seq<char>, k: nat) -> Seq<char> {
    base + "-"@ + dec(k)
}

/// `k` is the first number from 2 on whose `base-k` is not taken.
pub open spec fn is_first_free(base: Seq<char>, ids: Seq<Seq<char>>, k: nat) -> bool {
    &&& k >= 2
    &&& !ids.contains(candidate(base, k))
    &&& forall|j: nat| 2 <= j < k ==> ids.contains(#[trigger] candidate(base, j))
}

/// `base` when no id is `base`; otherwise `base-k` for the first free `k` from 2.
pub open spec fn unique_id(base: Seq<char>, ids: Seq<Seq<char>>) -> Seq<char> {
    if !ids.contains(base) {
        base
    } else {
        candidate(base, choose|k: nat| is_first_free(base, ids, k))
    }
}

/// There is no one-to-one map from `m` numbers into `n` when `m > n`.
pub proof fn lemma_pigeonhole(f: spec_fn(int) -> int, m: int, n: int)
    requires
        0 <= m,
        0 <= n,
        forall|i: int| 0 <= i < m ==> 0 <= #[trigger] f(i) < n,
        forall|i: int, j: int| 0 <= i < j < m ==> #[trigger] f(i) != #[trigger] f(j),
    ensures
        m <= n,
    decreases m,
{
    if m > 0 {
        let t = f(m - 1);
        let g = |i: int|
            if f(i) == n - 1 {
                t
            } else {
                f(i)
            };
        assert forall|i: int| 0 <= i < m - 1 implies 0 <= #[trigger] g(i) < n - 1 by {
            assert(f(i) != f(m - 1));
            if f(i) == n - 1 {
                assert(t != n - 1);
            }
        }
        assert forall|i: int, j: int| 0 <= i < j < m - 1 implies #[trigger] g(i) != #[trigger] g(j) by {
            assert(f(i) != f(j));
            assert(f(i) != f(m - 1));
            assert(f(j) != f(m - 1));
        }
        lemma_pigeonhole(g, m - 1, n - 1);
    }
}

/// Distinct numbers give distinct candidates.
proof fn lemma_candidate_injective(base: Seq<char>, a: nat, b: nat)
    requires
        candidate(base, a) == candidate(base, b),
    ensures
        a == b,
{
    let ca = candidate(base, a);
    let cb = candidate(base, b);
    let off = base.len() + "-"@.len();
    assert(ca.subrange(off as int, ca.len() as int) =~= dec(a));
    assert(cb.subrange(off as int, cb.len() as int) =~= dec(b));
    lemma_dec_injective(a, b);
}

/// Among `base-2 … base-(n+2)` one is not among `n` ids.
proof fn lemma_some_candidate_free(base: Seq<char>, ids: Seq<Seq<char>>)
    ensures
        exists|j: nat| 2 <= j < ids.len() + 3 && !ids.contains(#[trigger] candidate(base, j)),
{
    if forall|j: nat| 2 <= j < ids.len() + 3 ==> ids.contains(#[trigger] candidate(base, j)) {
        let f = |i: int| choose|x: int| 0 <= x < ids.len() && ids[x] == candidate(base, (i + 2) as nat);
        assert forall|i: int| 0 <= i < ids.len() + 1 implies 0 <= #[trigger] f(i) < ids.len() && ids[f(i)]
            == candidate(base, (i + 2) as nat) by {
            assert(ids.contains(candidate(base, (i + 2) as nat)));
        }
        assert forall|i: int, j: int| 0 <= i < j < ids.len() + 1 implies #[trigger] f(i) != #[trigger] f(j) by {
            if f(i) == f(j) {
                lemma_candidate_injective(base, (i + 2) as nat, (j + 2) as nat);
            }
        }
        lemma_pigeonhole(f, ids.len() + 1int, ids.len() as int);
    }
}

fn ids_vec(es: &Vec<ProjectEntry>) -> (r: Vec<Vec<char>>)
    ensures
        views(r@) == ids_of(entry_views(es@)),
{
    let mut out: Vec<Vec<char>> = Vec::new();
    let mut k: usize = 0;
    while k < es.len()
        invariant
            k <= es@.len(),
            views(out@) == ids_of(entry_views(es@)).subrange(0, k as int),
        decreases es@.len() - k,
    {
        let ghost before = views(out@);
        out.push(chars_of(es[k].id.as_str()));
        assert(views(out@) =~= before.push(es@[k as int].id@));
        assert(ids_of(entry_views(es@)).subrange(0, k + 1) =~= ids_of(entry_views(es@)).subrange(
            0,
            k as int,
        ).push(es@[k as int].id@));
        k = k + 1;
    }
    assert(ids_of(entry_views(es@)).subrange(0, es@.len() as int) =~= ids_of(entry_views(es@)));
    out
}

/// A fresh id from `base` (see `unique_id`).
fn unique_id_exec(base: &Vec<char>, ids: &Vec<Vec<char>>) -> (r: Vec<char>)
    ensures
        r@ == unique_id(base@, views(ids@)),
        !views(ids@).contains(r@),
{
    let ghost v = views(ids@);
    if !contains_seq(ids, base) {
        return chars_from(base);
    }
    let n = ids.len();
    let dash = chars_of("-");
    proof {
        lemma_some_candidate_free(base@, v);
    }
    let mut k: u128 = 2;
    loop
        invariant
            v == views(ids@),
            n == v.len(),
            dash@ == "-"@,
            2 <= k <= n + 2,
            v.contains(base@),
            forall|j: nat| 2 <= j < k ==> v.contains(#[trigger] candidate(base@, j)),
            exists|j: nat| 2 <= j < n + 3 && !v.contains(#[trigger] candidate(base@, j)),
        decreases n + 2 - k,
    {
        let cand = concat(&concat(base, &dash), &decimal(k));
        assert(cand@ == candidate(base@, k as nat));
        if !contains_seq(ids, &cand) {
            proof {
                assert(is_first_free(base@, v, k as nat));
                assert(exists|j: nat| is_first_free(base@, v, j));
                let c = choose|j: nat| is_first_free(base@, v, j);
                if c < k as nat {
                    assert(v.contains(candidate(base@, c)));
                } else if c > k as nat {
                    assert(v.contains(candidate(base@, k as nat)));
                }
            }
            return cand;
        }
        proof {
            if k == (n + 2) as u128 {
                let j = choose|j: nat| 2 <= j < n + 3 && !v.contains(#[trigger] candidate(base@, j));
                assert(v.contains(candidate(base@, j)));
            }
        }
        k = k + 1;
    }
}

/// The name a project is shown under: the given one unless it is blank,
/// otherwise the directory's name.
pub open spec fn display_name(name: Option<Seq<char>>, dir: Seq<char>) -> Seq<char> {
    match name {
        Some(n) => if trim(n).len() > 0 {
            n
        } else {
            dir
        },
        None => dir,
    }
}

/// The first position of `x` in `reg`, or its length.
pub open spec fn first_index(reg: Seq<Seq<char>>, x: Seq<char>, k: int) -> int
    decreases reg.len() - k,
{
    if k < 0 || k >= reg.len() {
        reg.len() as int
    } else if reg[k] == x {
        k
    } else {
        first_index(reg, x, k + 1)
    }
}

/// `(id, name, path, created_template)` of an add.
pub open spec fn add_view(r: AddResult) -> (Seq<char>, Seq<char>, Seq<char>, bool) {
    (r.id@, r.name@, r.path@, r.created_template)
}

/// The outcome of adding the directory at `raw` (expanded to `shown`):
/// - `路径不存在: ` / `不是目录: ` with the path when it is missing or not a directory;
/// - the registry's own error when it could not be read;
/// - `该路径已登记(id=…): …` when a registered project resolves to the same
///   absolute path (`reg[i]` is where entry `i` resolves to);
/// - otherwise the registry with a new last entry: a fresh kebab-case id from
///   the directory's name (the last component of its resolved absolute path
///   `facts.abs`, or `project` when that has none, as for `/`), the given
///   name (or the directory's name), the absolute
///   path, `PROGRESS.md`, not pinned, added `today`, and the project's
///   GitHub anchor `github` when it has one. The other projects keep every
///   field, their `github` among them.
pub open spec fn add_outcome(
    doc: Result<(u32, Seq<EntryView>), Seq<char>>,
    shown: Seq<char>,
    facts: PathFacts,
    reg: Seq<Seq<char>>,
    name: Option<Seq<char>>,
    today: Seq<char>,
    github: Option<Seq<char>>,
) -> Result<((u32, Seq<EntryView>), (Seq<char>, Seq<char>, Seq<char>, bool)), Seq<char>> {
    if !facts.exists {
        Err("路径不存在: "@ + shown)
    } else if !facts.is_dir {
        Err("不是目录: "@ + shown)
    } else {
        match doc {
            Err(e) => Err(e),
            Ok((v, es)) => {
                let abs = facts.abs@;
                let i = first_index(reg, abs, 0);
                if i < reg.len() {
                    Err("该路径已登记(id="@ + es[i].id + "): "@ + abs)
                } else {
                    let dir = match file_name(abs) {
                        Some(d) => d,
                        None => "project"@,
                    };
                    let id = unique_id(kebab(dir), ids_of(es));
                    let nm = display_name(name, dir);
                    let e = EntryView {
                        id,
                        name: nm,
                        path: abs,
                        progress_file: "PROGRESS.md"@,
                        pinned: false,
                        added: today,
                        github,
                    };
                    Ok(((v, es.push(e)), (id, nm, abs, false)))
                }
            },
        }
    }
}

pub open spec fn add_result_view(r: Result<(RegistryDoc, AddResult), String>) -> Result<
    ((u32, Seq<EntryView>), (Seq<char>, Seq<char>, Seq<char>, bool)),
    Seq<char>,
> {
    match r {
        Ok((d, a)) => Ok((doc_view(d), add_view(a))),
        Err(e) => Err(e@),
    }
}

fn err_msg(prefix: &str, x: &[char]) -> (r: String)
    ensures
        r@ == prefix@ + x@,
{
    string_of(&concat(&chars_of(prefix), x))
}

/// Adds the directory at `raw_path` to the registry (see `add_outcome`); the
/// caller writes the new registry back.
pub fn add_project_to(
    doc: Result<RegistryDoc, String>,
    raw_path: &str,
    home: Option<&str>,
    facts: &PathFacts,
    registered: &Vec<String>,
    name: Option<&str>,
    today: &str,
    remote: Option<&str>,
    branch: Option<&str>,
) -> (r: Result<(RegistryDoc, AddResult), String>)
    requires
        doc matches Ok(d) ==> registered@.len() == d.projects@.len(),
    ensures
        add_result_view(r) == add_outcome(
            read_view(doc),
            crate::paths::tilde_expanded(raw_path@, crate::paths::opt_view(home)),
            *facts,
            strs(registered@),
            crate::paths::opt_view(name),
            today@,
            github_anchor(crate::paths::opt_view(remote), crate::paths::opt_view(branch)),
        ),
{
    let shown = crate::paths::expand_tilde_chars(&chars_of(raw_path), home);
    if !facts.exists {
        return Err(err_msg("路径不存在: ", &shown));
    }
    if !facts.is_dir {
        return Err(err_msg("不是目录: ", &shown));
    }
    let ghost input = read_view(doc);
    let mut reg_doc = match doc {
        Ok(d) => d,
        Err(e) => return Err(e),
    };
    let abs = chars_of(facts.abs.as_str());
    let mut k: usize = 0;
    while k < registered.len()
        invariant
            k <= registered@.len() == reg_doc.projects@.len(),
            input == Ok::<(u32, Seq<EntryView>), Seq<char>>(doc_view(reg_doc)),
            input == read_view(doc),
            facts.exists && facts.is_dir,
            shown@ == crate::paths::tilde_expanded(raw_path@, crate::paths::opt_view(home)),
            abs@ == facts.abs@,
            first_index(strs(registered@), abs@, 0) == first_index(strs(registered@), abs@, k as int),
        decreases registered@.len() - k,
    {
        if same_chars(&chars_of(registered[k].as_str()), &abs) {
            assert(strs(registered@)[k as int] == registered@[k as int]@);
            let msg = concat(
                &concat(&concat(&chars_of("该路径已登记(id="), &chars_of(reg_doc.projects[k].id.as_str())), &chars_of("): ")),
                &abs,
            );
            assert(msg@ =~= "该路径已登记(id="@ + entry_views(reg_doc.projects@)[k as int].id + "): "@ + abs@);
            assert(first_index(strs(registered@), abs@, k as int) == k);
            assert(first_index(strs(registered@), abs@, 0) == k);
            assert(add_outcome(input, shown@, *facts, strs(registered@), crate::paths::opt_view(name), today@, github_anchor(crate::paths::opt_view(remote), crate::paths::opt_view(branch))) == Err::<((u32, Seq<EntryView>), (Seq<char>, Seq<char>, Seq<char>, bool)), Seq<char>>(msg@));
            return Err(string_of(&msg));
        }
        k = k + 1;
    }
    let dir: String = match path_file_name(&abs) {
        Some(d) => string_of(&d),
        None => string_of(&chars_of("project")),
    };
    let base = chars_of(kebab_case(dir.as_str()).as_str());
    let ids = ids_vec(&reg_doc.projects);
    let id = unique_id_exec(&base, &ids);
    let shown_name: String = match name {
        Some(n) => if trim_of(&chars_of(n)).len() > 0 {
            string_of(&chars_of(n))
        } else {
            copy_string(&dir)
        },
        None => copy_string(&dir),
    };
    let ghost before = entry_views(reg_doc.projects@);
    let entry = ProjectEntry {
        id: string_of(&id),
        name: copy_string(&shown_name),
        path: copy_string(&facts.abs),
        progress_file: string_of(&chars_of("PROGRESS.md")),
        pinned: false,
        added: string_of(&chars_of(today)),
        github: detect_github(remote, branch),
    };
    reg_doc.projects.push(entry);
    assert(entry_views(reg_doc.projects@) =~= before.push(entry@));
    let result = AddResult {
        id: string_of(&id),
        name: shown_name,
        path: copy_string(&facts.abs),
        created_template: false,
    };
    Ok((reg_doc, result))
}

/// The projects without those whose id is `id`.
pub open spec fn without_id(es: Seq<EntryView>, id: Seq<char>) -> Seq<EntryView>
    decreases es.len(),
{
    if es.len() == 0 {
        Seq::empty()
    } else {
        let rest = without_id(es.drop_last(), id);
        if es.last().id == id {
            rest
        } else {
            rest.push(es.last())
        }
    }
}

/// The outcome of removing `id`: the registry without it, `未找到 id: …` when
/// no project has it, or the registry's own error. Only the registry changes.
pub open spec fn remove_outcome(
    doc: Result<(u32, Seq<EntryView>), Seq<char>>,
    id: Seq<char>,
) -> Result<(u32, Seq<EntryView>), Seq<char>> {
    match doc {
        Err(e) => Err(e),
        Ok((v, es)) => {
            let kept = without_id(es, id);
            if kept.len() == es.len() {
                Err("未找到 id: "@ + id)
            } else {
                Ok((v, kept))
            }
        },
    }
}

/// Removes a project from the registry (see `remove_outcome`); the caller
/// writes the new registry back. The project's own files are never touched.
pub fn remove_project_from(doc: Result<RegistryDoc, String>, id: &str) -> (r: Result<
    RegistryDoc,
    String,
>)
    ensures
        read_view(r) == remove_outcome(read_view(doc), id@),
{
    let d = match doc {
        Ok(d) => d,
        Err(e) => return Err(e),
    };
    let want = chars_of(id);
    let mut kept: Vec<ProjectEntry> = Vec::new();
    let mut k: usize = 0;
    while k < d.projects.len()
        invariant
            k <= d.projects@.len(),
            want@ == id@,
            entry_views(kept@) == without_id(entry_views(d.projects@).subrange(0, k as int), id@),
        decreases d.projects@.len() - k,
    {
        assert(entry_views(d.projects@).subrange(0, k + 1).drop_last() =~= entry_views(
            d.projects@,
        ).subrange(0, k as int));
        if !same_chars(&chars_of(d.projects[k].id.as_str()), &want) {
            let ghost before = entry_views(kept@);
            kept.push(copy_entry(&d.projects[k]));
            assert(entry_views(kept@) =~= before.push(d.projects@[k as int]@));
        }
        k = k + 1;
    }
    assert(entry_views(d.projects@).subrange(0, d.projects@.len() as int) =~= entry_views(
        d.projects@,
    ));
    if kept.len() == d.projects.len() {
        return Err(err_msg("未找到 id: ", &want));
    }
    Ok(RegistryDoc { version: d.version, projects: kept })
}


// ───────────── laws of add and remove ─────────────

proof fn lemma_first_free_from(base: Seq<char>, ids: Seq<Seq<char>>, k: nat, bound: nat)
    requires
        2 <= k,
        forall|j: nat| 2 <= j < k ==> ids.contains(#[trigger] candidate(base, j)),
        exists|j: nat| k <= j < bound && !ids.contains(#[trigger] candidate(base, j)),
    ensures
        exists|j: nat| is_first_free(base, ids, j),
    decreases bound - k,
{
    if !ids.contains(candidate(base, k)) {
        assert(is_first_free(base, ids, k));
    } else {
        let w = choose|j: nat| k <= j < bound && !ids.contains(#[trigger] candidate(base, j));
        assert(w != k);
        assert forall|j: nat| 2 <= j < k + 1 implies ids.contains(#[trigger] candidate(base, j)) by {
            if j < k {
            }
        }
        lemma_first_free_from(base, ids, k + 1, bound);
    }
}

/// A fresh id is not among the ids it was made fresh for.
pub proof fn lemma_unique_id_fresh(base: Seq<char>, ids: Seq<Seq<char>>)
    ensures
        !ids.contains(unique_id(base, ids)),
{
    if ids.contains(base) {
        lemma_some_candidate_free(base, ids);
        lemma_first_free_from(base, ids, 2, (ids.len() + 3) as nat);
    }
}

proof fn lemma_without_absent(es: Seq<EntryView>, id: Seq<char>)
    requires
        !ids_of(es).contains(id),
    ensures
        without_id(es, id) == es,
    decreases es.len(),
{
    if es.len() > 0 {
        assert(ids_of(es.drop_last()) =~= ids_of(es).drop_last());
        if ids_of(es.drop_last()).contains(id) {
            let i = choose|i: int| 0 <= i < ids_of(es.drop_last()).len() && ids_of(es.drop_last())[i] == id;
            assert(ids_of(es)[i] == id);
        }
        lemma_without_absent(es.drop_last(), id);
        assert(ids_of(es)[es.len() - 1] == es.last().id);
        assert(es.drop_last().push(es.last()) =~= es);
    }
}

/// Removing the project that an add just registered gives back the registry
/// as it was before the add.
pub proof fn lemma_remove_undoes_add(
    doc: Result<(u32, Seq<EntryView>), Seq<char>>,
    shown: Seq<char>,
    facts: PathFacts,
    reg: Seq<Seq<char>>,
    name: Option<Seq<char>>,
    today: Seq<char>,
    github: Option<Seq<char>>,
)
    requires
        add_outcome(doc, shown, facts, reg, name, today, github) is Ok,
    ensures
        match add_outcome(doc, shown, facts, reg, name, today, github) {
            Ok((after, added)) => remove_outcome(
                Ok::<(u32, Seq<EntryView>), Seq<char>>(after),
                added.0,
            ) == doc,
            Err(_) => true,
        },
{
    match doc {
        Ok((v, es)) => {
            let dir = match file_name(facts.abs@) {
                Some(d) => d,
                None => "project"@,
            };
            let id = unique_id(kebab(dir), ids_of(es));
            lemma_unique_id_fresh(kebab(dir), ids_of(es));
            lemma_without_absent(es, id);
            match add_outcome(doc, shown, facts, reg, name, today, github) {
                Ok((after, added)) => {
                    assert(after.1.drop_last() =~= es);
                    assert(after.1.last().id == id);
                    assert(added.0 == id);
                },
                Err(_) => {},
            }
        },
        Err(_) => {},
    }
}

/// An add keeps the version and every project that was there with all its
/// fields (`github` among them), and appends exactly one, whose id no other
/// project has and which carries the GitHub anchor the add was given.
pub proof fn lemma_add_appends_fresh(
    doc: Result<(u32, Seq<EntryView>), Seq<char>>,
    shown: Seq<char>,
    facts: PathFacts,
    reg: Seq<Seq<char>>,
    name: Option<Seq<char>>,
    today: Seq<char>,
    github: Option<Seq<char>>,
)
    requires
        doc is Ok,
        add_outcome(doc, shown, facts, reg, name, today, github) is Ok,
    ensures
        match (doc, add_outcome(doc, shown, facts, reg, name, today, github)) {
            (Ok((v, es)), Ok((after, added))) => {
                &&& after.0 == v
                &&& after.1.len() == es.len() + 1
                &&& after.1.subrange(0, es.len() as int) == es
                &&& after.1.last().id == added.0
                &&& after.1.last().github == github
                &&& !ids_of(es).contains(added.0)
            },
            _ => true,
        },
{
    match doc {
        Ok((v, es)) => {
            let dir = match file_name(facts.abs@) {
                Some(d) => d,
                None => "project"@,
            };
            let base = kebab(dir);
            lemma_unique_id_fresh(base, ids_of(es));
            match add_outcome(doc, shown, facts, reg, name, today, github) {
                Ok((after, added)) => {
                    assert(after.1.subrange(0, es.len() as int) =~= es);
                },
                Err(_) => {},
            }
        },
        Err(_) => {},
    }
}


// ───────────── today's date ─────────────

/// `s` left-padded with `0` to at least `w` characters.
pub open spec fn zero_pad(s: Seq<char>, w: nat) -> Seq<char> {
    if s.len() >= w {
        s
    } else {
        Seq::new((w - s.len()) as nat, |i: int| '0') + s
    }
}

/// `format!("{:04}-{:02}-{:02}", y, m, d)`.
pub open spec fn date_text(y: int, m: nat, d: nat) -> Seq<char> {
    (if y < 0 {
        seq!['-'] + zero_pad(dec((-y) as nat), 3)
    } else {
        zero_pad(dec(y as nat), 4)
    }) + seq!['-'] + zero_pad(dec(m), 2) + seq!['-'] + zero_pad(dec(d), 2)
}

fn zero_pad_exec(s: Vec<char>, w: usize) -> (r: Vec<char>)
    ensures
        r@ == zero_pad(s@, w as nat),
{
    if s.len() >= w {
        return s;
    }
    let mut zeros: Vec<char> = Vec::new();
    let n = w - s.len();
    while zeros.len() < n
        invariant
            zeros@.len() <= n,
            forall|i: int| 0 <= i < zeros@.len() ==> zeros@[i] == '0',
        decreases n - zeros@.len(),
    {
        zeros.push('0');
    }
    let r = concat(&zeros, &s);
    assert(zeros@ =~= Seq::new((w - s@.len()) as nat, |i: int| '0'));
    r
}

/// The text of a date (see `date_text`).
pub fn format_date(y: i64, m: u32, d: u32) -> (r: Vec<char>)
    ensures
        r@ == date_text(y as int, m as nat, d as nat),
{
    let year = if y < 0 {
        let neg: i128 = -(y as i128);
        concat(&char1('-'), &zero_pad_exec(decimal(neg as u128), 3))
    } else {
        zero_pad_exec(decimal(y as u128), 4)
    };
    let a = concat(&year, &char1('-'));
    let b = concat(&a, &zero_pad_exec(decimal(m as u128), 2));
    let c = concat(&b, &char1('-'));
    concat(&c, &zero_pad_exec(decimal(d as u128), 2))
}

/// Today's date as `YYYY-MM-DD`: what the system's `date +%F` printed (given
/// as `printed`, trimmed) when that looks like a date; otherwise the UTC date
/// of the given Unix time.
pub open spec fn today_is(printed: Option<Seq<char>>, unix_secs: nat, r: Seq<char>) -> bool {
    match printed {
        Some(p) if iso_date_shape(trim(p)) => r == trim(p),
        _ => exists|y: int, m: nat, d: nat|
            crate::dates::valid_date(y, m as int, d as int) && crate::dates::days_from_civil(
                y,
                m as int,
                d as int,
            ) == unix_secs / 86400 && r == date_text(y, m, d),
    }
}

/// Today's date (see `today_is`): the local date the system printed, or the
/// UTC date of the clock.
pub fn today_iso_from(printed: Option<&str>, unix_secs: u64) -> (r: String)
    ensures
        today_is(crate::paths::opt_view(printed), unix_secs as nat, r@),
{
    match printed {
        Some(p) => {
            let t = trim_of(&chars_of(p));
            if looks_like_iso_date(&t) {
                return string_of(&t);
            }
        },
        None => {},
    }
    let days = (unix_secs / 86400) as i64;
    let (y, m, d) = crate::dates::civil_from_days(days);
    let text = format_date(y, m, d);
    assert(crate::dates::valid_date(y as int, m as nat as int, d as nat as int));
    string_of(&text)
}

} // verus!
