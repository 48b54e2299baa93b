//! The item store: decoding structured record files into items.
//!
//! A record file holds one JSON object with the required string fields
//! `name` and `description`. Reading the directory is the caller's business;
//! this module turns each file's text into an [`Item`] or a [`LoadError`],
//! calling serde_json for the parsing itself.
use vstd::prelude::*;

use crate::item::{Item, ItemModel};

verus! {

/// Why a record file was rejected. Any of these is fatal at startup: there
/// is no partial load.
#[derive(Clone, Copy, PartialEq, Eq, Structural, Debug)]
pub enum LoadError {
    /// The text is not a well-formed JSON document.
    Syntax,
    /// The document has no string field `name` at top level.
    MissingName,
    /// The document has no string field `description` at top level.
    MissingDescription,
}

#[verifier::external_type_specification]
#[verifier::external_body]
pub struct ExJsonValue(serde_json::Value);

#[verifier::external_type_specification]
#[verifier::external_body]
pub struct ExJsonError(serde_json::Error);

/// Whether serde_json parses `s` as a JSON document.
pub uninterp spec fn json_parses(s: Seq<char>) -> bool;

/// The top-level string-valued fields of the JSON document `s`: each key of
/// the top-level object whose value is a JSON string, mapped to that string.
/// Empty when the document is not an object.
pub uninterp spec fn doc_str_fields(s: Seq<char>) -> Map<Seq<char>, Seq<char>>;

/// The top-level string-valued fields held by a parsed JSON value.
pub uninterp spec fn str_fields(v: serde_json::Value) -> Map<Seq<char>, Seq<char>>;

/// Relies on `serde_json::from_str::<Value>`: the result is a function of
/// the text alone, it is `Ok` exactly when the text is well-formed JSON (a
/// `Value` deserialises from any well-formed document), and the parsed value
/// holds the document's top-level string fields.
#[verifier::external_body]
fn parse_json(s: &str) -> (r: Result<serde_json::Value, serde_json::Error>)
    ensures
        r is Ok <==> json_parses(s@),
        r matches Ok(v) ==> str_fields(v) == doc_str_fields(s@),
{
    serde_json::from_str(s)
}

/// Relies on `serde_json::Value::get` with a string index, which returns the
/// value at that key when `v` is an object holding the key, and on
/// `Value::as_str`, which returns the string exactly when that value is a
/// JSON string.
#[verifier::external_body]
fn get_str_field(v: &serde_json::Value, key: &str) -> (r: Option<String>)
    ensures
        r is Some <==> str_fields(*v).dom().contains(key@),
        r matches Some(f) ==> f@ == str_fields(*v)[key@],
{
    match v.get(key) {
        Some(field) => match field.as_str() {
            Some(f) => Some(f.to_string()),
            None => None,
        },
        None => None,
    }
}

/// What decoding a record text yields: the item made of the `name` and
/// `description` fields, or the first failure — unparseable text, then a
/// missing `name`, then a missing `description`.
pub open spec fn decode_model(s: Seq<char>) -> Result<ItemModel, LoadError> {
    if !json_parses(s) {
        Err(LoadError::Syntax)
    } else if !doc_str_fields(s).dom().contains("name"@) {
        Err(LoadError::MissingName)
    } else if !doc_str_fields(s).dom().contains("description"@) {
        Err(LoadError::MissingDescription)
    } else {
        Ok(
            ItemModel {
                name: doc_str_fields(s)["name"@],
                description: doc_str_fields(s)["description"@],
            },
        )
    }
}

/// Decode one record text into an item, or say exactly why not.
pub fn decode_item(s: &str) -> (r: Result<Item, LoadError>)
    ensures
        decode_model(s@) matches Ok(m) ==> r matches Ok(item) && item@ == m,
        decode_model(s@) matches Err(e) ==> r matches Err(e2) && e2 == e,
{
    let v = match parse_json(s) {
        Ok(v) => v,
        Err(_) => {
            return Err(LoadError::Syntax);
        },
    };
    let name = match get_str_field(&v, "name") {
        Some(n) => n,
        None => {
            return Err(LoadError::MissingName);
        },
    };
    let description = match get_str_field(&v, "description") {
        Some(d) => d,
        None => {
            return Err(LoadError::MissingDescription);
        },
    };
    Ok(Item { name, description })
}

/// Decode a batch of record texts, in order. All must decode: the first
/// failure is the whole load's failure, and nothing is kept.
pub fn decode_items(texts: &Vec<String>) -> (r: Result<Vec<Item>, LoadError>)
    ensures
        (r is Ok) <==> (forall|i: int|
            0 <= i < texts@.len() ==> (#[trigger] decode_model(texts@[i]@)) is Ok),
        r matches Ok(items) ==> items@.len() == texts@.len() && (forall|i: int|
            0 <= i < texts@.len() ==> ((#[trigger] decode_model(texts@[i]@)) matches Ok(m) && (
            items@[i])@ == m)),
        r matches Err(e) ==> exists|i: int|
            0 <= i < texts@.len() && ((#[trigger] decode_model(texts@[i]@)) matches Err(e2) && e2
                == e) && (forall|j: int| 0 <= j < i ==> decode_model(texts@[j]@) is Ok),
{
    let mut items: Vec<Item> = Vec::new();
    let mut i: usize = 0;
    while i < texts.len()
        invariant
            i <= texts@.len(),
            items@.len() == i,
            forall|j: int|
                0 <= j < i ==> ((#[trigger] decode_model(texts@[j]@)) matches Ok(m) && (
                items@[j])@ == m),
        decreases texts@.len() - i,
    {
        match decode_item(texts[i].as_str()) {
            Ok(item) => {
                items.push(item);
                proof {
                    assert(decode_model(texts@[i as int]@) matches Ok(m) && (items@[i as int])@
                        == m);
                }
            },
            Err(e) => {
                proof {
                    let wi = i as int;
                    assert(0 <= wi < texts@.len() && ((#[trigger] decode_model(texts@[wi]@))
                        matches Err(e2) && e2 == e) && (forall|j: int|
                        0 <= j < wi ==> decode_model(texts@[j]@) is Ok));
                }
                return Err(e);
            },
        }
        i = i + 1;
    }
    Ok(items)
}

/// Law: loading is deterministic — two decodes of the same record texts
/// yield the same models, hence the same multiset of items; only the later
/// shuffle makes run-to-run order differ.
pub proof fn lemma_load_idempotent(texts: Seq<Seq<char>>, r1: Seq<ItemModel>, r2: Seq<ItemModel>)
    requires
        r1.len() == texts.len(),
        r2.len() == texts.len(),
        forall|i: int|
            0 <= i < texts.len() ==> ((#[trigger] decode_model(texts[i])) matches Ok(m) && r1[i]
                == m),
        forall|i: int|
            0 <= i < texts.len() ==> ((#[trigger] decode_model(texts[i])) matches Ok(m) && r2[i]
                == m),
    ensures
        r1 == r2,
        r1.to_multiset() == r2.to_multiset(),
{
    assert forall|i: int| 0 <= i < texts.len() implies r1[i] == r2[i] by {
        assert(decode_model(texts[i]) matches Ok(m) && r1[i] == m && r2[i] == m);
    }
    assert(r1 =~= r2);
}

} // verus!
