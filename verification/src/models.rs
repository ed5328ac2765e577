//! Request and response records exchanged with the secret store, and the
//! key lookup over a listing response.

use vstd::prelude::*;

verus! {

/// Body of a single-secret fetch.
pub struct SecretGetRequest {
    pub id: String,
}

/// Body of a fetch of several secrets by id.
pub struct SecretsGetRequest {
    pub ids: Vec<String>,
}

/// Identity of one secret in a listing response.
pub struct ListItem {
    pub id: String,
    pub organization_id: Option<String>,
    pub key: String,
}

/// A listing response: every secret the organization holds.
pub struct ListResponse {
    pub data: Vec<ListItem>,
}

/// Body of a delete of several secrets by id.
pub struct SecretsDeleteRequest {
    pub ids: Vec<String>,
}

/// Body of a secret creation.
pub struct SecretCreateRequest {
    pub key: String,
    pub value: String,
    pub note: Option<String>,
    pub organization_id: Option<String>,
    pub project_ids: Option<Vec<String>>,
}

/// Body of a secret update.
pub struct SecretPutRequest {
    pub id: String,
    pub key: String,
    pub value: String,
    pub note: Option<String>,
    pub organization_id: Option<String>,
    pub project_ids: Option<Vec<String>>,
}

/// Index of the first listing record whose key equals `key`, searching from
/// position `k`.
pub open spec fn record_index_from(items: Seq<ListItem>, key: Seq<char>, k: int) -> Option<int>
    decreases items.len() - k,
{
    if k < 0 || k >= items.len() {
        None
    } else if items[k].key@ == key {
        Some(k)
    } else {
        record_index_from(items, key, k + 1)
    }
}

/// The first record of the listing whose `key` field equals `key` exactly
/// (case-sensitive, whole key), if any.
#[verifier::loop_isolation(false)]
pub fn find_by_key<'a>(list: &'a ListResponse, key: &String) -> (r: Option<&'a ListItem>)
    ensures
        match r {
            Some(item) => exists|i: int| #![auto]
                record_index_from(list.data@, key@, 0) == Some(i) && *item == list.data@[i],
            None => record_index_from(list.data@, key@, 0) is None,
        },
{
    let mut j: usize = 0;
    while j < list.data.len()
        invariant
            0 <= j <= list.data@.len(),
            record_index_from(list.data@, key@, 0) == record_index_from(
                list.data@,
                key@,
                j as int,
            ),
        decreases list.data@.len() - j,
    {
        if list.data[j].key == *key {
            assert(record_index_from(list.data@, key@, j as int) == Some(j as int));
            return Some(&list.data[j]);
        }
        j = j + 1;
    }
    None
}

} // verus!
