//! Combining the keys of the three sources into one sorted report.

use vstd::prelude::*;
use crate::key_order::{
    contains_key, extend_keys_sorted, is_sorted_listing, key_set, key_views,
    lemma_sorted_listing_unique, sorted_unique_keys,
};

verus! {

/// One discovered provider key and where it was found.
#[derive(Debug, Clone)]
pub struct ProviderKeyInfo {
    pub key: String,
    /// The key names a provider of the OpenCode configuration.
    pub has_config: bool,
    /// The key has credentials in the OpenCode credential store.
    pub has_auth: bool,
    /// The key is one of the providers that the OpenCode models cache lists.
    pub is_internal: bool,
}

/// The outcome of a discovery: the keys that are configured or have
/// credentials, each with its sources, and the keys of each source.
#[derive(Debug, Clone)]
pub struct ProviderKeyDiscoveryResult {
    pub keys: Vec<ProviderKeyInfo>,
    pub config_keys: Vec<String>,
    pub auth_keys: Vec<String>,
    pub internal_keys: Vec<String>,
}

/// The keys of a list of discovered entries, in list order.
pub open spec fn entry_keys(entries: Seq<ProviderKeyInfo>) -> Seq<Seq<char>> {
    entries.map_values(|e: ProviderKeyInfo| e.key@)
}

/// `d` is the discovery result for the key sets `config`, `auth` and `internal`:
/// each source's keys are listed once each in key order; `keys` lists every key
/// that is configured or has credentials, once each in key order, and marks
/// each with the sources that hold it.
pub open spec fn is_discovery_of(
    config: Set<Seq<char>>,
    auth: Set<Seq<char>>,
    internal: Set<Seq<char>>,
    d: ProviderKeyDiscoveryResult,
) -> bool {
    &&& is_sorted_listing(key_views(d.config_keys@), config)
    &&& is_sorted_listing(key_views(d.auth_keys@), auth)
    &&& is_sorted_listing(key_views(d.internal_keys@), internal)
    &&& is_sorted_listing(entry_keys(d.keys@), config.union(auth))
    &&& forall|i: int|
        #![trigger d.keys@[i]]
        0 <= i < d.keys@.len() ==> {
            &&& d.keys@[i].has_config == config.contains(d.keys@[i].key@)
            &&& d.keys@[i].has_auth == auth.contains(d.keys@[i].key@)
            &&& d.keys@[i].is_internal == internal.contains(d.keys@[i].key@)
        }
}

/// Discovers the provider keys from the keys of the OpenCode configuration,
/// those of the credential store and those of the models cache.
///
/// A failure to read the configuration is returned first, then one to read
/// the credential store. Keys that only the models cache lists are reported
/// in `internal_keys` but not in `keys`.
pub fn discover_opencode_provider_keys<E>(
    config_keys: Result<Vec<String>, E>,
    auth_keys: Result<Vec<String>, E>,
    internal_keys: Vec<String>,
) -> (r: Result<ProviderKeyDiscoveryResult, E>)
    ensures
        config_keys is Err ==> r == Err::<ProviderKeyDiscoveryResult, E>(config_keys->Err_0),
        config_keys is Ok && auth_keys is Err ==> r == Err::<ProviderKeyDiscoveryResult, E>(
            auth_keys->Err_0,
        ),
        config_keys is Ok && auth_keys is Ok ==> r is Ok && is_discovery_of(
            key_set(config_keys->Ok_0@),
            key_set(auth_keys->Ok_0@),
            key_set(internal_keys@),
            r->Ok_0,
        ),
        r is Ok ==> forall|i: int|
            #![trigger r->Ok_0.keys@[i]]
            0 <= i < r->Ok_0.keys@.len() ==> {
                &&& r->Ok_0.keys@[i].has_config == key_set(config_keys->Ok_0@).contains(
                    r->Ok_0.keys@[i].key@,
                )
                &&& r->Ok_0.keys@[i].has_auth == key_set(auth_keys->Ok_0@).contains(
                    r->Ok_0.keys@[i].key@,
                )
                &&& r->Ok_0.keys@[i].is_internal == key_set(internal_keys@).contains(
                    r->Ok_0.keys@[i].key@,
                )
            },
{
    let config = match config_keys {
        Ok(keys) => keys,
        Err(e) => {
            return Err(e);
        },
    };
    let auth = match auth_keys {
        Ok(keys) => keys,
        Err(e) => {
            return Err(e);
        },
    };
    Ok(combine_provider_keys(&config, &auth, &internal_keys))
}

/// Combines the keys of the three sources into the discovery result.
fn combine_provider_keys(
    config: &Vec<String>,
    auth: &Vec<String>,
    internal: &Vec<String>,
) -> (d: ProviderKeyDiscoveryResult)
    ensures
        is_discovery_of(key_set(config@), key_set(auth@), key_set(internal@), d),
        forall|i: int|
            #![trigger d.keys@[i]]
            0 <= i < d.keys@.len() ==> {
                &&& d.keys@[i].has_config == key_set(config@).contains(d.keys@[i].key@)
                &&& d.keys@[i].has_auth == key_set(auth@).contains(d.keys@[i].key@)
                &&& d.keys@[i].is_internal == key_set(internal@).contains(d.keys@[i].key@)
            },
{
    let config_sorted = sorted_unique_keys(config);
    let auth_sorted = sorted_unique_keys(auth);
    let internal_sorted = sorted_unique_keys(internal);

    let mut all: Vec<String> = Vec::new();
    assert(key_set(all@) =~= Set::<Seq<char>>::empty());
    extend_keys_sorted(&mut all, &config_sorted);
    extend_keys_sorted(&mut all, &auth_sorted);
    assert(key_set(all@) =~= key_set(config@).union(key_set(auth@)));

    let mut keys: Vec<ProviderKeyInfo> = Vec::new();
    let n = all.len();
    let mut i: usize = 0;
    while i < n
        invariant
            n == all.len(),
            i <= n,
            keys@.len() == i,
            key_set(config_sorted@) == key_set(config@),
            key_set(auth_sorted@) == key_set(auth@),
            key_set(internal_sorted@) == key_set(internal@),
            forall|j: int|
                #![trigger keys@[j]]
                0 <= j < i ==> {
                    &&& keys@[j].key@ == all@[j]@
                    &&& keys@[j].has_config == key_set(config@).contains(all@[j]@)
                    &&& keys@[j].has_auth == key_set(auth@).contains(all@[j]@)
                    &&& keys@[j].is_internal == key_set(internal@).contains(all@[j]@)
                },
        decreases n - i,
    {
        let key = &all[i];
        let info = ProviderKeyInfo {
            key: key.clone(),
            has_config: contains_key(&config_sorted, key),
            has_auth: contains_key(&auth_sorted, key),
            is_internal: contains_key(&internal_sorted, key),
        };
        keys.push(info);
        i = i + 1;
    }
    assert(entry_keys(keys@) =~= key_views(all@));

    ProviderKeyDiscoveryResult {
        keys,
        config_keys: config_sorted,
        auth_keys: auth_sorted,
        internal_keys: internal_sorted,
    }
}

/// The discovery result depends on the three key sets alone: the order in
/// which a source yields its keys, and keys that it yields twice, change
/// nothing. Two results of the same key sets list the same keys in the same
/// order, with the same sources marked.
pub proof fn law_discovery_determined_by_key_sets(
    config: Set<Seq<char>>,
    auth: Set<Seq<char>>,
    internal: Set<Seq<char>>,
    d1: ProviderKeyDiscoveryResult,
    d2: ProviderKeyDiscoveryResult,
)
    requires
        is_discovery_of(config, auth, internal, d1),
        is_discovery_of(config, auth, internal, d2),
    ensures
        key_views(d1.config_keys@) == key_views(d2.config_keys@),
        key_views(d1.auth_keys@) == key_views(d2.auth_keys@),
        key_views(d1.internal_keys@) == key_views(d2.internal_keys@),
        d1.keys@.len() == d2.keys@.len(),
        forall|i: int|
            0 <= i < d1.keys@.len() ==> {
                &&& (#[trigger] d1.keys@[i]).key@ == d2.keys@[i].key@
                &&& d1.keys@[i].has_config == d2.keys@[i].has_config
                &&& d1.keys@[i].has_auth == d2.keys@[i].has_auth
                &&& d1.keys@[i].is_internal == d2.keys@[i].is_internal
            },
{
    lemma_sorted_listing_unique(key_views(d1.config_keys@), key_views(d2.config_keys@), config);
    lemma_sorted_listing_unique(key_views(d1.auth_keys@), key_views(d2.auth_keys@), auth);
    lemma_sorted_listing_unique(
        key_views(d1.internal_keys@),
        key_views(d2.internal_keys@),
        internal,
    );
    lemma_sorted_listing_unique(entry_keys(d1.keys@), entry_keys(d2.keys@), config.union(auth));
    assert forall|i: int| 0 <= i < d1.keys@.len() implies (#[trigger] d1.keys@[i]).key@
        == d2.keys@[i].key@ by {
        assert(entry_keys(d1.keys@)[i] == entry_keys(d2.keys@)[i]);
    }
}

/// Every listed key is configured or has credentials; a key that only the
/// models cache lists is never listed in `keys`.
pub proof fn law_listed_keys_have_a_source(
    config: Set<Seq<char>>,
    auth: Set<Seq<char>>,
    internal: Set<Seq<char>>,
    d: ProviderKeyDiscoveryResult,
)
    requires
        is_discovery_of(config, auth, internal, d),
    ensures
        forall|i: int|
            0 <= i < d.keys@.len() ==> (#[trigger] d.keys@[i]).has_config || d.keys@[i].has_auth,
        forall|k: Seq<char>|
            !config.contains(k) && !auth.contains(k) ==> !(#[trigger] entry_keys(d.keys@).contains(
                k,
            )),
{
    assert forall|i: int| 0 <= i < d.keys@.len() implies (#[trigger] d.keys@[i]).has_config
        || d.keys@[i].has_auth by {
        assert(entry_keys(d.keys@)[i] == d.keys@[i].key@);
        assert(entry_keys(d.keys@).to_set().contains(d.keys@[i].key@));
    }
    assert forall|k: Seq<char>|
        !config.contains(k) && !auth.contains(k) implies !(#[trigger] entry_keys(
            d.keys@,
        ).contains(k)) by {
        if entry_keys(d.keys@).contains(k) {
            assert(entry_keys(d.keys@).to_set().contains(k));
        }
    }
}

/// Each discovered entry carries its sources exactly: `has_config` holds
/// when the key is among the configured providers, `has_auth` when it is
/// among the providers with credentials, and `is_internal` when it is among
/// the providers that the models cache lists, each whatever the key's other
/// sources.
pub proof fn law_entry_flags_are_source_membership(
    config: Set<Seq<char>>,
    auth: Set<Seq<char>>,
    internal: Set<Seq<char>>,
    d: ProviderKeyDiscoveryResult,
)
    requires
        is_discovery_of(config, auth, internal, d),
    ensures
        forall|i: int|
            0 <= i < d.keys@.len() ==> ((#[trigger] d.keys@[i]).has_config <==> config.contains(
                d.keys@[i].key@,
            )),
        forall|i: int|
            0 <= i < d.keys@.len() ==> ((#[trigger] d.keys@[i]).has_auth <==> auth.contains(
                d.keys@[i].key@,
            )),
        forall|i: int|
            0 <= i < d.keys@.len() ==> ((#[trigger] d.keys@[i]).is_internal <==> internal.contains(
                d.keys@[i].key@,
            )),
        forall|i: int|
            0 <= i < d.keys@.len() && !config.contains((#[trigger] d.keys@[i]).key@)
                ==> !d.keys@[i].has_config,
        forall|i: int|
            0 <= i < d.keys@.len() && internal.contains((#[trigger] d.keys@[i]).key@)
                ==> d.keys@[i].is_internal,
{
}

} // verus!
