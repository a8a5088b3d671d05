//! YAML documents as plain values, parsed by `serde_yaml`.
use vstd::prelude::*;
use crate::text::chars_of;

verus! {

#[verifier::external_type_specification]
#[verifier::external_body]
pub struct ExYamlValue(serde_yaml::Value);

/// A YAML value as plain values.
#[derive(Debug)]
pub enum Yaml {
    Null,
    Bool(bool),
    /// A number: its value when it is an integer that fits a `u64`.
    Number(Option<u64>),
    Str(String),
    Sequence(Vec<Yaml>),
    /// A mapping in document order; a key is `Some(text)` when it is a string.
    Mapping(Vec<(Option<String>, Yaml)>),
    /// A `!tag`ged value.
    Tagged(Box<Yaml>),
}

/// What `serde_yaml` makes of a text: the document, or its error message.
pub uninterp spec fn yaml_document(text: Seq<char>) -> Result<Yaml, Seq<char>>;

/// `serde_yaml::Value` as plain values, variant for variant (a number by
/// `Number::as_u64`, a mapping key by whether it is a string).
#[verifier::external_body]
fn yaml_of_value(v: serde_yaml::Value) -> Yaml {
    match v {
        serde_yaml::Value::Null => Yaml::Null,
        serde_yaml::Value::Bool(b) => Yaml::Bool(b),
        serde_yaml::Value::Number(n) => Yaml::Number(n.as_u64()),
        serde_yaml::Value::String(s) => Yaml::Str(s),
        serde_yaml::Value::Sequence(items) => Yaml::Sequence(items.into_iter().map(yaml_of_value).collect()),
        serde_yaml::Value::Mapping(m) => Yaml::Mapping(m.into_iter().map(|(k, x)| (if let serde_yaml::Value::String(s) = k { Some(s) } else { None }, yaml_of_value(x))).collect()),
        serde_yaml::Value::Tagged(t) => Yaml::Tagged(Box::new(yaml_of_value(t.value))),
    }
}

/// `serde_yaml::from_str::<serde_yaml::Value>`: the document `text` holds, or
/// the parser's error message. Claimed: the outcome is `yaml_document(text)`, a
/// function of the text alone; nothing more is stated of YAML syntax.
#[verifier::external_body]
pub(crate) fn parse_yaml(text: &str) -> (r: Result<Yaml, String>)
    ensures
        match r {
            Ok(v) => yaml_document(text@) == Ok::<Yaml, Seq<char>>(v),
            Err(e) => yaml_document(text@) == Err::<Yaml, Seq<char>>(e@),
        },
{
    match serde_yaml::from_str::<serde_yaml::Value>(text) {
        Ok(v) => Ok(yaml_of_value(v)),
        Err(e) => Err(e.to_string()),
    }
}

/// The value under all its tags (`serde_yaml`'s accessors look through tags).
pub open spec fn untag(v: Yaml) -> Yaml
    decreases v,
{
    match v {
        Yaml::Tagged(b) => untag(*b),
        _ => v,
    }
}

/// The index of the first entry from `k` on whose key is the string `key`, or
/// the number of entries.
pub open spec fn entry_index(es: Seq<(Option<String>, Yaml)>, key: Seq<char>, k: int) -> int
    decreases es.len() - k,
{
    if k < 0 || k >= es.len() {
        es.len() as int
    } else if es[k].0 matches Some(s) && s@ == key {
        k
    } else {
        entry_index(es, key, k + 1)
    }
}

/// `Value::get(key)`: the value under the string key `key` of a mapping.
pub open spec fn yaml_get(v: Yaml, key: Seq<char>) -> Option<Yaml> {
    match untag(v) {
        Yaml::Mapping(es) => {
            let i = entry_index(es@, key, 0);
            if 0 <= i < es@.len() {
                Some(es@[i].1)
            } else {
                None
            }
        },
        _ => None,
    }
}

/// `Value::as_str`.
pub open spec fn yaml_str(v: Yaml) -> Option<Seq<char>> {
    match untag(v) {
        Yaml::Str(s) => Some(s@),
        _ => None,
    }
}

/// `Value::as_bool`.
pub open spec fn yaml_bool(v: Yaml) -> Option<bool> {
    match untag(v) {
        Yaml::Bool(b) => Some(b),
        _ => None,
    }
}

/// `Value::as_u64`.
pub open spec fn yaml_u64(v: Yaml) -> Option<u64> {
    match untag(v) {
        Yaml::Number(n) => n,
        _ => None,
    }
}

/// The value under all its tags.
pub fn untag_ref(v: &Yaml) -> (r: &Yaml)
    ensures
        *r == untag(*v),
    decreases *v,
{
    match v {
        Yaml::Tagged(b) => untag_ref(b),
        _ => v,
    }
}

/// The value under the string key `key`, when `v` is a mapping that has it.
pub fn get<'a>(v: &'a Yaml, key: &[char]) -> (r: Option<&'a Yaml>)
    ensures
        r matches Some(x) ==> yaml_get(*v, key@) == Some(*x),
        r is None ==> yaml_get(*v, key@) is None,
{
    match untag_ref(v) {
        Yaml::Mapping(es) => {
            let mut k: usize = 0;
            while k < es.len()
                invariant
                    k <= es@.len(),
                    untag(*v) == Yaml::Mapping(*es),
                    entry_index(es@, key@, 0) == entry_index(es@, key@, k as int),
                decreases es@.len() - k,
            {
                let hit = match &es[k].0 {
                    Some(s) => crate::text::same_chars(&chars_of(s.as_str()), key),
                    None => false,
                };
                if hit {
                    assert(es@[k as int].0 matches Some(s) && s@ == key@);
                    assert(entry_index(es@, key@, k as int) == k as int);
                    return Some(&es[k].1);
                }
                k = k + 1;
            }
            None
        },
        _ => None,
    }
}

/// The text of a string value.
pub fn as_str(v: &Yaml) -> (r: Option<&String>)
    ensures
        r matches Some(s) ==> yaml_str(*v) == Some(s@),
        r is None ==> yaml_str(*v) is None,
{
    match untag_ref(v) {
        Yaml::Str(s) => Some(s),
        _ => None,
    }
}

/// The value of a boolean.
pub fn as_bool(v: &Yaml) -> (r: Option<bool>)
    ensures
        r == yaml_bool(*v),
{
    match untag_ref(v) {
        Yaml::Bool(b) => Some(*b),
        _ => None,
    }
}

/// The value of a number that fits a `u64`.
pub fn as_u64(v: &Yaml) -> (r: Option<u64>)
    ensures
        r == yaml_u64(*v),
{
    match untag_ref(v) {
        Yaml::Number(n) => *n,
        _ => None,
    }
}

} // verus!
