//! Addresses of the vector store's REST endpoints.
//!
//! Every endpoint lives under a prefix (the store's `collections` URL); the
//! collection's name follows it, and the point operations below that.

use vstd::prelude::*;

verus! {

/// The suffix of the blocking upsert endpoint, after the collection's address.
pub const UPSERT_SUFFIX: &'static str = "/points?wait=true";

/// The suffix of the search endpoint, after the collection's address.
pub const SEARCH_SUFFIX: &'static str = "/points/search";

/// The address of collection `name` under `prefix`.
pub fn collection_uri(prefix: &str, name: &str) -> (r: String)
    ensures
        r@ == prefix@ + "/"@ + name@,
{
    let mut uri = String::from_str(prefix);
    uri.append("/");
    uri.append(name);
    uri
}

/// The address at which points are upserted into collection `name`, waiting
/// for the store to acknowledge them.
pub fn upsert_uri(prefix: &str, name: &str) -> (r: String)
    ensures
        r@ == prefix@ + "/"@ + name@ + UPSERT_SUFFIX@,
{
    let uri = collection_uri(prefix, name);
    uri.concat(UPSERT_SUFFIX)
}

/// The address at which collection `name` is searched.
pub fn search_uri(prefix: &str, name: &str) -> (r: String)
    ensures
        r@ == prefix@ + "/"@ + name@ + SEARCH_SUFFIX@,
{
    let uri = collection_uri(prefix, name);
    uri.concat(SEARCH_SUFFIX)
}

} // verus!
