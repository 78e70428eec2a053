use vstd::prelude::*;
use crate::resp::{bytes_seq, RespData, RespValue};
use crate::storage::{Storage, StorageError};

verus! {

/// The map left after removing each key of `keys` in order.
pub open spec fn remove_keys(m: Map<Seq<u8>, RespData>, keys: Seq<Seq<u8>>) -> Map<
    Seq<u8>,
    RespData,
>
    decreases keys.len(),
{
    if keys.len() == 0 {
        m
    } else {
        remove_keys(m.remove(keys[0]), keys.drop_first())
    }
}

pub proof fn lemma_remove_keys_push(m: Map<Seq<u8>, RespData>, keys: Seq<Seq<u8>>, k: Seq<u8>)
    ensures
        remove_keys(m, keys.push(k)) == remove_keys(m, keys).remove(k),
    decreases keys.len(),
{
    if keys.len() == 0 {
        assert(keys.push(k).drop_first() =~= Seq::<Seq<u8>>::empty());
        assert(keys.push(k)[0] == k);
        assert(remove_keys(m, keys) == m);
        assert(remove_keys(m.remove(k), Seq::<Seq<u8>>::empty()) == m.remove(k));
    } else {
        assert(keys.push(k).drop_first() =~= keys.drop_first().push(k));
        assert(keys.push(k)[0] == keys[0]);
        lemma_remove_keys_push(m.remove(keys[0]), keys.drop_first(), k);
        assert(remove_keys(m, keys.push(k)) == remove_keys(
            m.remove(keys[0]),
            keys.drop_first().push(k),
        ));
        assert(remove_keys(m, keys) == remove_keys(m.remove(keys[0]), keys.drop_first()));
    }
}

/// The database: the storage backend under a small verified façade.
pub struct DB<S: Storage> {
    storage: S,
}

impl<S: Storage> DB<S> {
    /// The abstract key–value map this database holds.
    pub closed spec fn contents(&self) -> Map<Seq<u8>, RespData> {
        self.storage.contents()
    }

    /// Wraps a backend.
    pub fn new(storage: S) -> (r: DB<S>)
        ensures
            r.contents() == storage.contents(),
    {
        DB { storage }
    }

    /// The value under `key`, if any.
    pub fn get(&self, key: &Vec<u8>) -> (r: Result<Option<RespValue>, StorageError>)
        ensures
            match r {
                Ok(Some(v)) => self.contents().contains_key(key@) && v.deep() == self.contents()[key@],
                Ok(None) => !self.contents().contains_key(key@),
                Err(_) => false,
            },
    {
        self.storage.get(key)
    }

    /// Stores `value` under `key`; hands back the value it displaces.
    pub fn set(&mut self, key: Vec<u8>, value: RespValue) -> (r: Result<
        Option<RespValue>,
        StorageError,
    >)
        ensures
            final(self).contents() == old(self).contents().insert(key@, value.deep()),
            r is Ok,
    {
        self.storage.set(key, value)
    }

    /// Removes each key of `keys`, in order.
    pub fn delete(&mut self, keys: &Vec<Vec<u8>>) -> (r: Result<(), StorageError>)
        ensures
            final(self).contents() == remove_keys(old(self).contents(), bytes_seq(keys@)),
            r is Ok,
    {
        let ghost key_views = bytes_seq(keys@);
        let mut i: usize = 0;
        while i < keys.len()
            invariant
                i <= keys@.len(),
                self.contents() == remove_keys(old(self).contents(), key_views.take(i as int)),
                keys@.len() == key_views.len(),
                forall|j: int| 0 <= j < keys@.len() ==> key_views[j] == #[trigger] keys@[j]@,
            decreases keys@.len() - i,
        {
            let res = self.storage.delete(&keys[i]);
            proof {
                assert(key_views.take(i + 1 as int) =~= key_views.take(i as int).push(
                    key_views[i as int],
                ));
                lemma_remove_keys_push(
                    old(self).contents(),
                    key_views.take(i as int),
                    key_views[i as int],
                );
            }
            i += 1;
        }
        proof {
            assert(key_views.take(key_views.len() as int) =~= key_views);
        }
        Ok(())
    }
}

} // verus!
