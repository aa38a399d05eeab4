//! The provider keys that the OpenCode models cache lists.
//!
//! The cache is a JSON document whose top level is an object keyed by
//! provider; its keys are the built-in providers. A document that does not
//! parse, or whose top level is not an object, lists no provider.

use vstd::prelude::*;
use crate::key_order::{is_sorted_listing, key_set, key_views, sorted_unique_keys};
use crate::json_text::{
    json_reading, lemma_object_text_reading, member_keys, member_well_formed, object_text,
    all_json_ws, read_json_top_level,
};

verus! {

#[verifier::external_type_specification]
#[verifier::external_body]
pub struct ExJsonError(serde_json::Error);

/// The top level of a parsed JSON document, as far as provider discovery reads it.
#[derive(Debug)]
pub enum JsonTopLevel {
    /// An object, with its keys.
    Object(Vec<String>),
    /// Any other JSON value.
    Other,
}

/// What `serde_json` makes of the JSON text `text`: `None` when it does not
/// parse, `Some(Some(keys))` when its top level is an object with those keys,
/// `Some(None)` when its top level is another value.
pub uninterp spec fn json_top_level_keys(text: Seq<char>) -> Option<Option<Seq<Seq<char>>>>;

/// Parses `text` with `serde_json::from_str` into a `serde_json::Value` and
/// reports its top level: the parse error, the keys of a top-level object, or
/// that the top level is another value. The contract ties the outcome to
/// `json_top_level_keys` of the text. Beyond that it claims that serde_json
/// reads every text that `json_reading` answers for as that reading does: a
/// conforming JSON parser (RFC 8259) within serde_json's limits (nesting depth
/// 128, finite numbers), whose object keys are those of the text, once each.
#[verifier::external_body]
fn parse_json_top_level(text: &str) -> (r: Result<JsonTopLevel, serde_json::Error>)
    ensures
        match r {
            Ok(JsonTopLevel::Object(keys)) => {
                &&& json_top_level_keys(text@) == Some(Some(key_views(keys@)))
                &&& json_reading(text@) matches Some(reading) ==> reading matches Some(
                    read_keys,
                ) && read_keys.to_set() == key_set(keys@)
            },
            Ok(JsonTopLevel::Other) => {
                &&& json_top_level_keys(text@) == Some(None::<Seq<Seq<char>>>)
                &&& json_reading(text@) matches Some(reading) ==> reading is None
            },
            Err(_) => {
                &&& json_top_level_keys(text@) is None
                &&& json_reading(text@) is None
            },
        },
{
    match serde_json::from_str::<serde_json::Value>(text) {
        Ok(serde_json::Value::Object(map)) => Ok(JsonTopLevel::Object(map.keys().cloned().collect())),
        Ok(_) => Ok(JsonTopLevel::Other),
        Err(e) => Err(e),
    }
}

/// The provider keys of a models cache whose JSON parse outcome is `parsed`
/// (as `json_top_level_keys` gives it): the keys of a top-level object, and
/// no key otherwise.
pub open spec fn models_cache_key_set(parsed: Option<Option<Seq<Seq<char>>>>) -> Set<Seq<char>> {
    match parsed {
        Some(Some(keys)) => keys.to_set(),
        _ => Set::empty(),
    }
}

/// The provider keys that a parsed models cache lists, once each in key
/// order: the keys of a top-level object; none when the document did not
/// parse or its top level is not an object.
pub fn provider_keys_from_document(doc: Result<JsonTopLevel, serde_json::Error>) -> (r: Vec<String>)
    ensures
        match doc {
            Ok(JsonTopLevel::Object(keys)) => is_sorted_listing(key_views(r@), key_set(keys@)),
            _ => r@.len() == 0,
        },
{
    match doc {
        Ok(JsonTopLevel::Object(keys)) => sorted_unique_keys(&keys),
        Ok(JsonTopLevel::Other) => Vec::new(),
        Err(_) => Vec::new(),
    }
}

/// The provider keys that the OpenCode models cache lists, once each in key
/// order, given the cache's text, or `None` when there is no cache to read.
/// A missing cache, one that is not JSON and one whose top level is not an
/// object all list no provider. Whenever `json_reading` answers for the text,
/// the keys are those of its reading.
pub fn read_opencode_models_cache_provider_keys(content: Option<&str>) -> (r: Vec<String>)
    ensures
        is_sorted_listing(
            key_views(r@),
            match content {
                Some(text) => models_cache_key_set(json_top_level_keys(text@)),
                None => Set::empty(),
            },
        ),
        match content {
            Some(text) => json_reading(text@) is Some ==> is_sorted_listing(
                key_views(r@),
                models_cache_key_set(json_reading(text@)),
            ),
            None => true,
        },
{
    match content {
        None => {
            let r: Vec<String> = Vec::new();
            assert(key_views(r@).to_set() =~= Set::<Seq<char>>::empty());
            r
        },
        Some(text) => {
            let doc = parse_json_top_level(text);
            match read_json_top_level(text) {
                Some(Some(keys)) => {
                    let r = sorted_unique_keys(&keys);
                    proof {
                        if let Ok(JsonTopLevel::Object(doc_keys)) = doc {
                            assert(key_views(doc_keys@).to_set() == key_set(doc_keys@));
                        }
                    }
                    r
                },
                Some(None) => {
                    let r: Vec<String> = Vec::new();
                    assert(key_views(r@).to_set() =~= Set::<Seq<char>>::empty());
                    r
                },
                None => {
                    let r = provider_keys_from_document(doc);
                    assert(key_views(r@).to_set() =~= models_cache_key_set(
                        json_top_level_keys(text@),
                    ));
                    r
                },
            }
        },
    }
}

/// The models cache lists exactly the keys of the object it holds: for every
/// object text whose members have keys without escapes and, as values, string
/// literals without escapes or objects of such members, with any number of
/// members, any whitespace and line breaks between its parts and so of any
/// length, the reader answers for the text, and
/// `read_opencode_models_cache_provider_keys` lists (by its `ensures`)
/// exactly the set of the members' keys.
pub proof fn law_models_cache_lists_object_keys(
    lead: Seq<char>,
    inner: Seq<char>,
    ms: Seq<(Seq<char>, Seq<char>, Seq<char>, Seq<char>, Seq<char>, Seq<char>)>,
    trail: Seq<char>,
)
    requires
        all_json_ws(lead),
        all_json_ws(inner),
        all_json_ws(trail),
        forall|i: int| 0 <= i < ms.len() ==> member_well_formed(#[trigger] ms[i]),
    ensures
        json_reading(object_text(lead, inner, ms, trail)) is Some,
        models_cache_key_set(json_reading(object_text(lead, inner, ms, trail))) == member_keys(
            ms,
        ).to_set(),
        forall|k: Seq<char>|
            models_cache_key_set(json_reading(object_text(lead, inner, ms, trail))).contains(k)
                <==> exists|i: int| 0 <= i < ms.len() && (#[trigger] ms[i]).1 == k,
{
    lemma_object_text_reading(lead, inner, ms, trail);
    let keys = member_keys(ms);
    assert forall|k: Seq<char>| keys.to_set().contains(k) <==> exists|i: int|
        0 <= i < ms.len() && (#[trigger] ms[i]).1 == k by {
        if keys.to_set().contains(k) {
            let i = choose|i: int| 0 <= i < keys.len() && keys[i] == k;
            assert(ms[i].1 == k);
        }
        if exists|i: int| 0 <= i < ms.len() && (#[trigger] ms[i]).1 == k {
            let i = choose|i: int| 0 <= i < ms.len() && (#[trigger] ms[i]).1 == k;
            assert(keys[i] == k);
        }
    }
}

/// The keys that the models cache lists do not depend on its layout: two
/// object texts with the same members in the same order, written with
/// different whitespace and line breaks, list the same keys.
pub proof fn law_models_cache_keys_ignore_layout(
    lead1: Seq<char>,
    inner1: Seq<char>,
    ms1: Seq<(Seq<char>, Seq<char>, Seq<char>, Seq<char>, Seq<char>, Seq<char>)>,
    trail1: Seq<char>,
    lead2: Seq<char>,
    inner2: Seq<char>,
    ms2: Seq<(Seq<char>, Seq<char>, Seq<char>, Seq<char>, Seq<char>, Seq<char>)>,
    trail2: Seq<char>,
)
    requires
        all_json_ws(lead1),
        all_json_ws(inner1),
        all_json_ws(trail1),
        forall|i: int| 0 <= i < ms1.len() ==> member_well_formed(#[trigger] ms1[i]),
        all_json_ws(lead2),
        all_json_ws(inner2),
        all_json_ws(trail2),
        forall|i: int| 0 <= i < ms2.len() ==> member_well_formed(#[trigger] ms2[i]),
        ms1.len() == ms2.len(),
        forall|i: int| 0 <= i < ms1.len() ==> (#[trigger] ms1[i]).1 == ms2[i].1 && ms1[i].4 == ms2[i].4,
    ensures
        models_cache_key_set(json_reading(object_text(lead1, inner1, ms1, trail1)))
            == models_cache_key_set(json_reading(object_text(lead2, inner2, ms2, trail2))),
{
    lemma_object_text_reading(lead1, inner1, ms1, trail1);
    lemma_object_text_reading(lead2, inner2, ms2, trail2);
    assert(member_keys(ms1) =~= member_keys(ms2));
}

} // verus!
