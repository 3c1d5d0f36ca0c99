//! The storage-engine capability: three operations over an abstract
//! key/value map.  The server is generic over it, so an alternative
//! embedded engine can be swapped in by the surrounding process; the
//! log-structured `KvStore` implements it here, in full.

use vstd::prelude::*;

use crate::codec::{encode_command, Command};
use crate::error::KvsError;
use crate::kv::{put_len, rm_len, KvStore};

verus! {

/// A key-value storage engine.
///
/// Each operation speaks of `model()`, the engine's observable
/// contents.  An implementation may fail for reasons of its own (a
/// full disk, a refused offset), but a success always moves the model
/// as stated, and a failure leaves it unchanged.
pub trait KvsEngine: Sized {
    /// The engine's internal invariant.
    ///
    /// The defaults of this and the following spec functions are for
    /// engines the library does not verify (they make the conditional
    /// clauses below vacuous, so such an impl promises nothing beyond
    /// its signatures).  A verified engine overrides all of them:
    /// keeping the default `model()` would force it to report the
    /// empty map, and keeping the default success conditions would
    /// strip its operations of every success promise.
    open spec fn inv(&self) -> bool {
        true
    }

    /// The engine's observable contents.
    open spec fn model(&self) -> Map<Seq<char>, Seq<char>> {
        Map::empty()
    }

    /// When `set` is owed success.
    open spec fn set_succeeds(&self, key: Seq<char>, value: Seq<char>) -> bool {
        false
    }

    /// When `get` is owed success.
    open spec fn get_succeeds(&self) -> bool {
        false
    }

    /// When `remove` is owed its exact outcome: success on a present
    /// key, `KeyNotFound` on an absent one.
    open spec fn remove_succeeds(&self, key: Seq<char>) -> bool {
        false
    }

    /// Sets a key to a value.
    fn set(&mut self, key: String, value: String) -> (r: Result<(), KvsError>)
        requires
            old(self).inv(),
        ensures
            final(self).inv(),
            r is Ok ==> final(self).model() == old(self).model().insert(key@, value@),
            r is Err ==> final(self).model() == old(self).model(),
            old(self).set_succeeds(key@, value@) ==> r is Ok,
    ;

    /// Looks a key up.
    fn get(&mut self, key: String) -> (r: Result<Option<String>, KvsError>)
        requires
            old(self).inv(),
        ensures
            final(self).inv(),
            final(self).model() == old(self).model(),
            r matches Ok(v) ==> ((v matches Some(s) ==> old(self).model().dom().contains(key@)
                && s@ == old(self).model()[key@]) && (v is None ==> !old(
                self,
            ).model().dom().contains(key@))),
            old(self).get_succeeds() ==> r is Ok,
    ;

    /// Removes a key.  Success means the key was present.
    fn remove(&mut self, key: String) -> (r: Result<(), KvsError>)
        requires
            old(self).inv(),
        ensures
            final(self).inv(),
            r is Ok ==> old(self).model().dom().contains(key@) && final(self).model() == old(
                self,
            ).model().remove(key@),
            r is Err ==> final(self).model() == old(self).model(),
            old(self).remove_succeeds(key@) && old(self).model().dom().contains(key@) ==> r
                is Ok,
            old(self).remove_succeeds(key@) && !old(self).model().dom().contains(key@) ==> (r
                matches Err(e) && (e matches KvsError::KeyNotFound(k) && k@ == key@)),
    ;
}

impl KvsEngine for KvStore {
    open spec fn inv(&self) -> bool {
        self.wf()
    }

    open spec fn model(&self) -> Map<Seq<char>, Seq<char>> {
        self.kv()
    }

    open spec fn set_succeeds(&self, key: Seq<char>, value: Seq<char>) -> bool {
        self.current_gen + 2 <= u64::MAX && self.can_append(put_len(key, value))
    }

    open spec fn get_succeeds(&self) -> bool {
        true
    }

    open spec fn remove_succeeds(&self, key: Seq<char>) -> bool {
        self.can_append(rm_len(key))
    }

    fn set(&mut self, key: String, value: String) -> (r: Result<(), KvsError>) {
        if self.current_gen > u64::MAX - 2 {
            return Err(KvsError::Full);
        }
        let total = self.total_size_exec();
        let probe = Command::Put { key: key.clone(), val: value.clone() };
        let enc = encode_command(&probe);
        if enc.len() as u64 > u64::MAX - total {
            return Err(KvsError::Full);
        }
        KvStore::set(self, key, value)
    }

    fn get(&mut self, key: String) -> (r: Result<Option<String>, KvsError>) {
        KvStore::get(self, key)
    }

    fn remove(&mut self, key: String) -> (r: Result<(), KvsError>) {
        let total = self.total_size_exec();
        let probe = Command::Rm { key: key.clone() };
        let enc = encode_command(&probe);
        if enc.len() as u64 > u64::MAX - total {
            return Err(KvsError::Full);
        }
        KvStore::remove(self, key)
    }
}

} // verus!
