use vstd::prelude::*;
use crate::resp::{duplicate, RespData, RespValue};

verus! {

/// Failures a storage backend may report. The concurrent-map backend below
/// never does; the kinds exist for backends that can.
#[derive(Debug)]
pub enum StorageError {
    KeyNotFound(String),
    InvalidOperation(String),
    Internal(String),
}

#[verifier::external_type_specification]
#[verifier::external_body]
#[verifier::reject_recursive_types(K)]
#[verifier::reject_recursive_types(V)]
#[verifier::reject_recursive_types(S)]
pub struct ExDashMap<K, V, S>(dashmap::DashMap<K, V, S>);

/// A contents map with nothing in it.
pub open spec fn empty_contents() -> Map<Seq<u8>, RespData> {
    Map::empty()
}

/// What the concurrent map holds: each key's bytes mapped to the model of the
/// value stored under it.
pub uninterp spec fn dashmap_contents(m: &dashmap::DashMap<Vec<u8>, RespValue>) -> Map<
    Seq<u8>,
    RespData,
>;

/// Relies on `DashMap::new`: a map with no entries.
#[verifier::external_body]
fn map_new() -> (r: dashmap::DashMap<Vec<u8>, RespValue>)
    ensures
        dashmap_contents(&r) == empty_contents(),
{
    dashmap::DashMap::new()
}

/// Relies on `DashMap::get`: the entry stored under the key, if present.
#[verifier::external_body]
fn map_get(m: &dashmap::DashMap<Vec<u8>, RespValue>, key: &Vec<u8>) -> (r: Option<RespValue>)
    ensures
        r is Some <==> dashmap_contents(m).contains_key(key@),
        match r {
            Some(v) => v.deep() == dashmap_contents(m)[key@],
            None => true,
        },
{
    m.get(key).map(|entry| duplicate(entry.value()))
}

/// Relies on `DashMap::insert`: maps the key to the value and returns the
/// value previously under it.
#[verifier::external_body]
fn map_insert(m: &mut dashmap::DashMap<Vec<u8>, RespValue>, key: Vec<u8>, value: RespValue) -> (r:
    Option<RespValue>)
    ensures
        dashmap_contents(final(m)) == dashmap_contents(old(m)).insert(key@, value.deep()),
        r is Some <==> dashmap_contents(old(m)).contains_key(key@),
        match r {
            Some(pv) => pv.deep() == dashmap_contents(old(m))[key@],
            None => true,
        },
{
    m.insert(key, value)
}

/// Relies on `DashMap::remove`: unmaps the key and returns the entry that
/// was under it.
#[verifier::external_body]
fn map_remove(m: &mut dashmap::DashMap<Vec<u8>, RespValue>, key: &Vec<u8>) -> (r: Option<
    RespValue,
>)
    ensures
        dashmap_contents(final(m)) == dashmap_contents(old(m)).remove(key@),
        r is Some <==> dashmap_contents(old(m)).contains_key(key@),
        match r {
            Some(pv) => pv.deep() == dashmap_contents(old(m))[key@],
            None => true,
        },
{
    m.remove(key).map(|entry| entry.1)
}

/// Relies on `DashMap::clear`: removes all key-value pairs.
#[verifier::external_body]
fn map_clear(m: &mut dashmap::DashMap<Vec<u8>, RespValue>)
    ensures
        dashmap_contents(final(m)) == empty_contents(),
{
    m.clear()
}

/// Holds when the map's key set is finite with exactly `n` keys.
pub open spec fn counts_entries(m: Map<Seq<u8>, RespData>, n: nat) -> bool {
    m.dom().finite() && n == m.dom().len()
}

/// Relies on `DashMap::len`: the total number of key-value pairs stored.
#[verifier::external_body]
fn map_len(m: &dashmap::DashMap<Vec<u8>, RespValue>) -> (r: usize)
    ensures
        counts_entries(dashmap_contents(m), r as nat),
{
    m.len()
}

/// A key–value backend. `contents` is the abstract map a backend stands for;
/// every operation says how it reads or rewrites that map, and none may fail.
pub trait Storage: Sized {
    spec fn contents(&self) -> Map<Seq<u8>, RespData>;

    /// The value stored under `key`, if any.
    fn get(&self, key: &Vec<u8>) -> (r: Result<Option<RespValue>, StorageError>)
        ensures
            match r {
                Ok(Some(v)) => self.contents().contains_key(key@) && v.deep() == self.contents()[key@],
                Ok(None) => !self.contents().contains_key(key@),
                Err(_) => false,
            },
    ;

    /// Stores `value` under `key`, handing back the value it displaces.
    fn set(&mut self, key: Vec<u8>, value: RespValue) -> (r: Result<
        Option<RespValue>,
        StorageError,
    >)
        ensures
            final(self).contents() == old(self).contents().insert(key@, value.deep()),
            match r {
                Ok(prior) => (prior is Some <==> old(self).contents().contains_key(key@)) && (
                match prior {
                    Some(pv) => pv.deep() == old(self).contents()[key@],
                    None => true,
                }),
                Err(_) => false,
            },
    ;

    /// Removes `key`, handing back the value it held.
    fn delete(&mut self, key: &Vec<u8>) -> (r: Result<Option<RespValue>, StorageError>)
        ensures
            final(self).contents() == old(self).contents().remove(key@),
            match r {
                Ok(prior) => (prior is Some <==> old(self).contents().contains_key(key@)) && (
                match prior {
                    Some(pv) => pv.deep() == old(self).contents()[key@],
                    None => true,
                }),
                Err(_) => false,
            },
    ;

    /// Removes every entry.
    fn clear(&mut self) -> (r: Result<(), StorageError>)
        ensures
            final(self).contents() == Map::<Seq<u8>, RespData>::empty(),
            r is Ok,
    ;

    /// How many entries are stored.
    fn len(&self) -> (r: usize)
        ensures
            counts_entries(self.contents(), r as nat),
    ;
}

/// Storage over a sharded concurrent hash map, safe for readers and writers
/// on other threads; keys give point lookups with per-key isolation.
pub struct DashMapStorage {
    data: dashmap::DashMap<Vec<u8>, RespValue>,
}

impl DashMapStorage {
    /// An empty store.
    pub fn new() -> (r: DashMapStorage)
        ensures
            r.contents() == Map::<Seq<u8>, RespData>::empty(),
    {
        DashMapStorage { data: map_new() }
    }
}

impl Storage for DashMapStorage {
    closed spec fn contents(&self) -> Map<Seq<u8>, RespData> {
        dashmap_contents(&self.data)
    }

    fn get(&self, key: &Vec<u8>) -> (r: Result<Option<RespValue>, StorageError>) {
        Ok(map_get(&self.data, key))
    }

    fn set(&mut self, key: Vec<u8>, value: RespValue) -> (r: Result<
        Option<RespValue>,
        StorageError,
    >) {
        Ok(map_insert(&mut self.data, key, value))
    }

    fn delete(&mut self, key: &Vec<u8>) -> (r: Result<Option<RespValue>, StorageError>) {
        Ok(map_remove(&mut self.data, key))
    }

    fn clear(&mut self) -> (r: Result<(), StorageError>) {
        map_clear(&mut self.data);
        Ok(())
    }

    fn len(&self) -> (r: usize) {
        map_len(&self.data)
    }
}

} // verus!
