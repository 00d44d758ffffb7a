//! YAML documents as the engine reads them.
//!
//! `yaml_rust` reads the text of a document and is not verified here. What
//! it reads is handed over as a [`YamlValue`], on which the engine's own reading
//! of taskfiles works.

use vstd::prelude::*;

verus! {

/// A node of a YAML document, as `yaml_rust` reads it. A hash is the list of
/// its entries in the order of the document, no key twice.
#[derive(Debug)]
pub enum YamlValue {
    /// A number with a fraction or an exponent, as it is written.
    Real(String),
    Integer(i64),
    String(String),
    Boolean(bool),
    Array(Vec<YamlValue>),
    Hash(Vec<(YamlValue, YamlValue)>),
    /// A reference to an anchor.
    Alias(usize),
    Null,
    /// What `yaml_rust` puts where there is no value.
    BadValue,
}

/// `yaml_rust::Yaml`, as a type whose inside is not seen; values of it
/// only pass between the functions below that call `yaml_rust`.
#[verifier::external_type_specification]
#[verifier::external_body]
pub struct ExYaml(yaml_rust::Yaml);

/// The documents that `yaml_rust` reads out of a text, where the text is YAML.
pub uninterp spec fn yaml_documents(source: Seq<char>) -> Option<Seq<YamlValue>>;

/// Hands a node of `yaml_rust` over as a [`YamlValue`], part by part.
#[verifier::external_body]
pub(crate) fn from_yaml_rust(y: &yaml_rust::Yaml) -> YamlValue {
    match y {
        yaml_rust::Yaml::Real(s) => YamlValue::Real(s.clone()),
        yaml_rust::Yaml::Integer(i) => YamlValue::Integer(*i),
        yaml_rust::Yaml::String(s) => YamlValue::String(s.clone()),
        yaml_rust::Yaml::Boolean(b) => YamlValue::Boolean(*b),
        yaml_rust::Yaml::Array(a) => YamlValue::Array(a.iter().map(from_yaml_rust).collect()),
        yaml_rust::Yaml::Hash(h) => YamlValue::Hash(
            h.iter().map(|(k, v)| (from_yaml_rust(k), from_yaml_rust(v))).collect(),
        ),
        yaml_rust::Yaml::Alias(n) => YamlValue::Alias(*n),
        yaml_rust::Yaml::Null => YamlValue::Null,
        yaml_rust::Yaml::BadValue => YamlValue::BadValue,
    }
}

/// `YamlLoader::load_from_str`: the documents of a text, or the message of
/// the error that the scanner reports. The same text always gives the same
/// documents.
#[verifier::external_body]
pub(crate) fn load_documents(source: &str) -> (r: Result<Vec<YamlValue>, String>)
    ensures
        match r {
            Ok(docs) => yaml_documents(source@) == Some(docs@),
            Err(_) => yaml_documents(source@) is None,
        },
{
    match yaml_rust::YamlLoader::load_from_str(source) {
        Ok(docs) => Ok(docs.iter().map(from_yaml_rust).collect()),
        Err(e) => Err(e.to_string()),
    }
}

/// Whether a node is the string `key`.
pub open spec fn is_key(node: YamlValue, key: Seq<char>) -> bool {
    node matches YamlValue::String(s) && s@ == key
}

/// The keys that a map holds after the entries of a hash have been put
/// into it one by one, where it held `before`: a key that is no string is
/// passed over, a known key keeps its place, a new key goes to the end.
pub open spec fn keys_after(before: Seq<Seq<char>>, entries: Seq<(YamlValue, YamlValue)>) -> Seq<
    Seq<char>,
>
    decreases entries.len(),
{
    if entries.len() == 0 {
        before
    } else if entries.last().0 is String && !keys_after(before, entries.drop_last()).contains(
        entries.last().0->String_0@,
    ) {
        keys_after(before, entries.drop_last()).push(entries.last().0->String_0@)
    } else {
        keys_after(before, entries.drop_last())
    }
}

/// The keys of the entries of a hash that are strings, each once, in the
/// order in which they first occur.
pub open spec fn first_keys(entries: Seq<(YamlValue, YamlValue)>) -> Seq<Seq<char>> {
    keys_after(Seq::empty(), entries)
}

/// Whether `i` is the position of the first entry of a hash under `key`.
pub open spec fn is_entry(hash: Seq<(YamlValue, YamlValue)>, key: Seq<char>, i: int) -> bool {
    &&& 0 <= i < hash.len()
    &&& is_key(hash[i].0, key)
    &&& forall|j: int| 0 <= j < i ==> !is_key((#[trigger] hash[j]).0, key)
}

/// Whether a hash has an entry under `key`.
pub open spec fn has_entry(hash: Seq<(YamlValue, YamlValue)>, key: Seq<char>) -> bool {
    exists|i: int| is_entry(hash, key, i)
}

/// The value of the first entry of a hash under `key`, which it has.
pub open spec fn entry(hash: Seq<(YamlValue, YamlValue)>, key: Seq<char>) -> YamlValue {
    hash[choose|i: int| is_entry(hash, key, i)].1
}

/// A hash has one first entry under a key.
pub proof fn lemma_entry(hash: Seq<(YamlValue, YamlValue)>, key: Seq<char>, i: int)
    requires
        is_entry(hash, key, i),
    ensures
        has_entry(hash, key),
        entry(hash, key) == hash[i].1,
{
    let k = choose|k: int| is_entry(hash, key, k);
    assert(is_entry(hash, key, k));
    if k < i {
        assert(!is_key(hash[k].0, key));
    }
    if i < k {
        assert(!is_key(hash[i].0, key));
    }
}

/// A hash without an entry under a key.
pub proof fn lemma_no_entry(hash: Seq<(YamlValue, YamlValue)>, key: Seq<char>)
    requires
        forall|j: int| 0 <= j < hash.len() ==> !is_key((#[trigger] hash[j]).0, key),
    ensures
        !has_entry(hash, key),
{
}

impl YamlValue {
    /// The text of a string node.
    pub fn as_str(&self) -> (r: Option<&str>)
        ensures
            match r {
                Some(s) => *self matches YamlValue::String(t) && t@ == s@,
                None => !(*self is String),
            },
    {
        match self {
            YamlValue::String(s) => Some(s.as_str()),
            _ => None,
        }
    }

    /// The value of a boolean node.
    pub fn as_bool(&self) -> (r: Option<bool>)
        ensures
            match r {
                Some(b) => *self == YamlValue::Boolean(b),
                None => !(*self is Boolean),
            },
    {
        match self {
            YamlValue::Boolean(b) => Some(*b),
            _ => None,
        }
    }

    /// The entries of a hash node.
    pub fn as_hash(&self) -> (r: Option<&Vec<(YamlValue, YamlValue)>>)
        ensures
            match r {
                Some(h) => *self == YamlValue::Hash(*h),
                None => !(*self is Hash),
            },
    {
        match self {
            YamlValue::Hash(h) => Some(h),
            _ => None,
        }
    }

    /// The items of an array node.
    pub fn as_vec(&self) -> (r: Option<&Vec<YamlValue>>)
        ensures
            match r {
                Some(a) => *self == YamlValue::Array(*a),
                None => !(*self is Array),
            },
    {
        match self {
            YamlValue::Array(a) => Some(a),
            _ => None,
        }
    }
}

/// The value of the first entry of a hash under `key`, if there is one.
pub fn hash_get<'a>(hash: &'a Vec<(YamlValue, YamlValue)>, key: &str) -> (r: Option<&'a YamlValue>)
    ensures
        match r {
            Some(v) => has_entry(hash@, key@) && *v == entry(hash@, key@),
            None => !has_entry(hash@, key@),
        },
{
    let mut i: usize = 0;
    while i < hash.len()
        invariant
            i <= hash@.len(),
            forall|j: int| 0 <= j < i ==> !is_key((#[trigger] hash@[j]).0, key@),
        decreases hash@.len() - i,
    {
        match &hash[i].0 {
            YamlValue::String(s) => {
                if crate::text::text_eq(s.as_str(), key) {
                    proof {
                        lemma_entry(hash@, key@, i as int);
                    }
                    return Some(&hash[i].1);
                }
            },
            _ => {},
        }
        i += 1;
    }
    proof {
        lemma_no_entry(hash@, key@);
    }
    None
}

} // verus!
