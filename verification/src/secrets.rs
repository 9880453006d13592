//! Secrets read through a provider, with a read-through cache, and the
//! request paths of a Vault key-value store.
use crate::assoc::{assoc_map, keys_unique, lemma_assoc_absent, lemma_assoc_index, lemma_assoc_push, lemma_assoc_update};
use crate::rbac::str_eq;
use crate::types::KcmError;
use vstd::prelude::*;
use vstd::string::*;

verus! {

/// Where secrets live. Implementations reach outside services, so nothing
/// is promised of their answers.
pub trait SecretProvider {
    fn get_secret(&self, key: &str) -> Result<String, KcmError>;

    fn set_secret(&self, key: &str, value: &str) -> Result<(), KcmError>;

    fn delete_secret(&self, key: &str) -> Result<(), KcmError>;

    fn list_secrets(&self) -> Result<Vec<String>, KcmError>;
}

/// The cache as pairs of key and value text.
pub open spec fn cache_pairs(c: Seq<(String, String)>) -> Seq<(Seq<char>, Seq<char>)> {
    c.map_values(|p: (String, String)| (p.0@, p.1@))
}

/// A provider with a cache of the secrets read or written through it.
pub struct SecretsManager<P: SecretProvider> {
    provider: P,
    cache: Vec<(String, String)>,
    cache_ttl_secs: u64,
}

impl<P: SecretProvider> SecretsManager<P> {
    /// The cached secrets.
    pub closed spec fn cached(&self) -> Map<Seq<char>, Seq<char>> {
        assoc_map(cache_pairs(self.cache@))
    }

    /// No key is cached twice.
    pub closed spec fn wf(&self) -> bool {
        keys_unique(cache_pairs(self.cache@))
    }

    pub closed spec fn spec_ttl(&self) -> u64 {
        self.cache_ttl_secs
    }

    /// A manager with an empty cache and a time-to-live of 300 seconds.
    pub fn new(provider: P) -> (r: SecretsManager<P>)
        ensures
            r.wf(),
            r.cached() == Map::<Seq<char>, Seq<char>>::empty(),
            r.spec_ttl() == 300,
    {
        let r = SecretsManager { provider, cache: Vec::new(), cache_ttl_secs: 300 };
        assert(cache_pairs(r.cache@) =~= Seq::empty());
        r
    }

    /// A manager with an empty cache and the given time-to-live (kept, not
    /// acted on).
    pub fn with_cache_ttl(provider: P, ttl_secs: u64) -> (r: SecretsManager<P>)
        ensures
            r.wf(),
            r.cached() == Map::<Seq<char>, Seq<char>>::empty(),
            r.spec_ttl() == ttl_secs,
    {
        let r = SecretsManager { provider, cache: Vec::new(), cache_ttl_secs: ttl_secs };
        assert(cache_pairs(r.cache@) =~= Seq::empty());
        r
    }

    fn find(&self, key: &str) -> (r: Option<usize>)
        requires
            self.wf(),
        ensures
            r matches Some(i) ==> i < self.cache@.len() && self.cache@[i as int].0@ == key@,
            r is None ==> !self.cached().dom().contains(key@),
    {
        let mut i: usize = 0;
        while i < self.cache.len()
            invariant
                i <= self.cache@.len(),
                forall|k: int| 0 <= k < i ==> #[trigger] self.cache@[k].0@ != key@,
            decreases self.cache@.len() - i,
        {
            if str_eq(self.cache[i].0.as_str(), key) {
                return Some(i);
            }
            i = i + 1;
        }
        proof {
            let c = cache_pairs(self.cache@);
            assert forall|k: int| 0 <= k < c.len() implies #[trigger] c[k].0 != key@ by {
                assert(c[k].0 == self.cache@[k].0@);
            }
            lemma_assoc_absent(c, key@);
        }
        None
    }

    /// Caches `value` under `key`.
    fn remember(&mut self, key: &str, value: &str)
        requires
            old(self).wf(),
        ensures
            final(self).wf(),
            final(self).cached() == old(self).cached().insert(key@, value@),
            final(self).spec_ttl() == old(self).spec_ttl(),
    {
        let ghost c0 = cache_pairs(self.cache@);
        match self.find(key) {
            Some(i) => {
                let k = self.cache[i].0.clone();
                self.cache.set(i, (k, String::from_str(value)));
                proof {
                    lemma_assoc_update(c0, i as int, value@);
                    assert(cache_pairs(self.cache@) =~= c0.update(i as int, (c0[i as int].0, value@)));
                }
            },
            None => {
                self.cache.push((String::from_str(key), String::from_str(value)));
                proof {
                    assert forall|k: int| 0 <= k < c0.len() implies #[trigger] c0[k].0 != key@ by {
                        if c0[k].0 == key@ {
                            lemma_assoc_index(c0, k);
                        }
                    }
                    lemma_assoc_push(c0, key@, value@);
                    assert(cache_pairs(self.cache@) =~= c0.push((key@, value@)));
                }
            },
        }
    }

    /// A cached secret is answered from the cache; otherwise the provider
    /// is asked, and what it answers is cached.
    pub fn get_secret(&mut self, key: &str) -> (r: Result<String, KcmError>)
        requires
            old(self).wf(),
        ensures
            final(self).wf(),
            final(self).spec_ttl() == old(self).spec_ttl(),
            old(self).cached().dom().contains(key@) ==> (r matches Ok(v) && v@ == old(self).cached()[key@]
                && final(self).cached() == old(self).cached()),
            !old(self).cached().dom().contains(key@) ==> match r {
                Ok(v) => final(self).cached() == old(self).cached().insert(key@, v@),
                Err(_) => final(self).cached() == old(self).cached(),
            },
    {
        match self.find(key) {
            Some(i) => {
                proof {
                    lemma_assoc_index(cache_pairs(self.cache@), i as int);
                }
                Ok(self.cache[i].1.clone())
            },
            None => {
                let value = self.provider.get_secret(key)?;
                self.remember(key, value.as_str());
                Ok(value)
            },
        }
    }

    /// Stores the secret with the provider, then caches it.
    pub fn set_secret(&mut self, key: &str, value: &str) -> (r: Result<(), KcmError>)
        requires
            old(self).wf(),
        ensures
            final(self).wf(),
            final(self).spec_ttl() == old(self).spec_ttl(),
            r is Ok ==> final(self).cached() == old(self).cached().insert(key@, value@),
            r is Err ==> final(self).cached() == old(self).cached(),
    {
        self.provider.set_secret(key, value)?;
        self.remember(key, value);
        Ok(())
    }

    /// Forgets every cached secret.
    pub fn invalidate_cache(&mut self)
        ensures
            final(self).wf(),
            final(self).cached() == Map::<Seq<char>, Seq<char>>::empty(),
            final(self).spec_ttl() == old(self).spec_ttl(),
    {
        self.cache.clear();
        assert(cache_pairs(self.cache@) =~= Seq::empty());
    }
}

/// Once a secret is stored, reading it back gives the stored value
/// without asking the provider.
pub proof fn law_read_after_write(cache: Map<Seq<char>, Seq<char>>, key: Seq<char>, value: Seq<char>)
    ensures
        cache.insert(key, value).dom().contains(key),
        cache.insert(key, value)[key] == value,
{
}

/// The path of a secret's data in a Vault key-value store:
/// `{addr}/v1/{mount}/data/{key}`.
pub fn vault_data_url(addr: &str, mount_path: &str, key: &str) -> (r: String)
    ensures
        r@ == addr@ + "/v1/"@ + mount_path@ + "/data/"@ + key@,
{
    let mut s = String::from_str(addr);
    s.append("/v1/");
    s.append(mount_path);
    s.append("/data/");
    s.append(key);
    s
}

/// The path of a secret's metadata: `{addr}/v1/{mount}/metadata/{key}`.
pub fn vault_metadata_url(addr: &str, mount_path: &str, key: &str) -> (r: String)
    ensures
        r@ == addr@ + "/v1/"@ + mount_path@ + "/metadata/"@ + key@,
{
    let mut s = String::from_str(addr);
    s.append("/v1/");
    s.append(mount_path);
    s.append("/metadata/");
    s.append(key);
    s
}

/// The path that lists the keys: `{addr}/v1/{mount}/metadata/?list=true`.
pub fn vault_list_url(addr: &str, mount_path: &str) -> (r: String)
    ensures
        r@ == addr@ + "/v1/"@ + mount_path@ + "/metadata/?list=true"@,
{
    let mut s = String::from_str(addr);
    s.append("/v1/");
    s.append(mount_path);
    s.append("/metadata/?list=true");
    s
}

} // verus!
