//! The operation surface: reads, derived-key writes, caller-keyed updates,
//! deletes and a full clear, all against a [`Store`].
//!
//! A write derives its key from the application namespace and the plaintext;
//! an update deliberately trusts the caller's key as-is, whether or not that
//! key was ever produced by the hash scheme.

use crate::keys::{app_name, derive_key, is_hex_digit, spec_app_name, spec_derive_key};
use crate::store::Store;
use vstd::prelude::*;

verus! {

/// What a write returns: the derived storage key together with the plaintext
/// that was persisted under it, so the caller learns the key without
/// recomputing the hash.
pub struct Item {
    /// The derived key: the hexadecimal digest of the namespace followed by
    /// the plaintext.
    pub key: String,
    /// The plaintext that was stored.
    pub data: String,
}

impl Item {
    /// The item's key is exactly the one its data derives under the
    /// application namespace.
    pub open spec fn wf(&self) -> bool {
        self.key@ == spec_derive_key(spec_app_name(), self.data@)
    }
}

/// Why an operation failed.
#[derive(Clone, Copy, Debug, PartialEq, Eq, Structural)]
pub enum StorageError {
    /// A read addressed a key that is not bound in the store.
    NotFound,
    /// The store itself rejected the operation. The in-memory store never
    /// does; the variant names the failure a persistent backend may surface.
    BackendError,
}

/// Read the value stored under `key`: the stored string when `key` is bound,
/// and `NotFound` exactly when it is not.
pub fn get_string(store: &Store, key: String) -> (r: Result<String, StorageError>)
    requires
        store.wf(),
    ensures
        r is Ok <==> store@.contains_key(key@),
        r is Ok ==> r->Ok_0@ == store@[key@],
        r is Err ==> r->Err_0 == StorageError::NotFound,
{
    match store.get(&key) {
        Some(value) => Ok(value),
        None => Err(StorageError::NotFound),
    }
}

/// Remove the entry stored under `key`; removing an absent key is a no-op,
/// not an error.
pub fn delete_string(store: &mut Store, key: String)
    requires
        old(store).wf(),
    ensures
        final(store).wf(),
        final(store)@ == old(store)@.remove(key@),
{
    store.delete(&key);
}

/// Persist `input` under its derived key — the hash of the application
/// namespace followed by `input` — overwriting any existing entry at that
/// key, and return the item describing what was written.
pub fn set_string(store: &mut Store, input: String) -> (r: Result<Item, StorageError>)
    requires
        old(store).wf(),
    ensures
        final(store).wf(),
        r is Ok,
        r->Ok_0.wf(),
        r->Ok_0.data@ == input@,
        r->Ok_0.key@ == spec_derive_key(spec_app_name(), input@),
        r->Ok_0.key@.len() == 64,
        forall|i: int| 0 <= i < r->Ok_0.key@.len() ==> is_hex_digit(#[trigger] r->Ok_0.key@[i]),
        final(store)@ == old(store)@.insert(spec_derive_key(spec_app_name(), input@), input@),
{
    let key = derive_key(app_name(), input.as_str());
    let item = Item { key: key.clone(), data: input.clone() };
    store.set(key, input);
    Ok(item)
}

/// Overwrite the value at the caller-supplied `key` with `input`
/// unconditionally, creating the entry if absent. The key is honored as-is
/// and never re-derived from the plaintext.
pub fn update_string(store: &mut Store, key: String, input: String) -> (r: Result<
    (),
    StorageError,
>)
    requires
        old(store).wf(),
    ensures
        final(store).wf(),
        r is Ok,
        final(store)@ == old(store)@.insert(key@, input@),
{
    store.set(key, input);
    Ok(())
}

/// Remove every entry from the store.
pub fn clear_storage(store: &mut Store)
    ensures
        final(store).wf(),
        final(store)@ == Map::<Seq<char>, Seq<char>>::empty(),
{
    store.clear();
}

/// Law: round-trip. Whatever the store held before, after writing plaintext
/// `data` the store binds the derived key to `data`, so a read at the
/// written item's key returns the plaintext.
pub proof fn lemma_write_read_round_trip(m: Map<Seq<char>, Seq<char>>, data: Seq<char>)
    ensures
        ({
            let k = spec_derive_key(spec_app_name(), data);
            let written = m.insert(k, data);
            written.contains_key(k) && written[k] == data
        }),
{
}

/// Law: write isolation. Writing `data1` and then `data2`, whose derived
/// keys differ, leaves two distinct entries, each still bound to its own
/// plaintext.
pub proof fn lemma_write_isolation(
    m: Map<Seq<char>, Seq<char>>,
    data1: Seq<char>,
    data2: Seq<char>,
)
    requires
        spec_derive_key(spec_app_name(), data1) != spec_derive_key(spec_app_name(), data2),
    ensures
        ({
            let k1 = spec_derive_key(spec_app_name(), data1);
            let k2 = spec_derive_key(spec_app_name(), data2);
            let written = m.insert(k1, data1).insert(k2, data2);
            written.contains_key(k1) && written[k1] == data1 && written.contains_key(k2)
                && written[k2] == data2
        }),
{
}

/// Law: delete idempotence. Deleting a key twice leaves the store exactly as
/// deleting it once does, and the second delete raises no error.
pub proof fn lemma_delete_idempotent(m: Map<Seq<char>, Seq<char>>, k: Seq<char>)
    ensures
        m.remove(k).remove(k) == m.remove(k),
{
    assert(m.remove(k).remove(k) =~= m.remove(k));
}

/// Law: clear empties the store. After a clear, a count query returns zero,
/// regardless of how many entries the store held before.
pub proof fn lemma_clear_empties_store()
    ensures
        Map::<Seq<char>, Seq<char>>::empty().dom().len() == 0,
{
    assert(Map::<Seq<char>, Seq<char>>::empty().dom() =~= Set::<Seq<char>>::empty());
}

/// Law: update does not rehash. After updating an arbitrary caller-chosen
/// key `k` — derived by the hash scheme or not — with value `v`, a read of
/// `k` returns `v`.
pub proof fn lemma_update_then_read(m: Map<Seq<char>, Seq<char>>, k: Seq<char>, v: Seq<char>)
    ensures
        m.insert(k, v).contains_key(k),
        m.insert(k, v)[k] == v,
{
}

} // verus!
