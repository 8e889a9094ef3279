//! The durable store adapter: an embedded, crash-durable, concurrently
//! accessible byte-key to byte-value tree. The tree's contents are modelled
//! as a map from byte sequences to byte sequences; insert is an unconditional
//! upsert (a later insert under the same key overwrites the earlier value),
//! and get is a point lookup.

use vstd::prelude::*;

verus! {

#[verifier::external_type_specification]
#[verifier::external_body]
pub struct ExDb(sled::Db);

/// The mapping from keys to values that the tree currently holds.
pub uninterp spec fn store_contents(db: sled::Db) -> Map<Seq<u8>, Seq<u8>>;

/// Relies on sled::open: opens (creating it if missing) the tree rooted at
/// `path`. Nothing is assumed of the contents recovered from disk.
#[verifier::external_body]
pub(crate) fn store_open(path: &str) -> (r: Result<sled::Db, String>) {
    match sled::open(path) {
        Ok(db) => Ok(db),
        Err(e) => Err(format!("{e}")),
    }
}

/// Relies on sled::Tree::insert: an upsert of `key` to `value`. On success
/// the tree maps `key` to `value` and every other key is unchanged; on an
/// I/O failure nothing is assumed of the tree.
#[verifier::external_body]
pub(crate) fn store_insert(db: &mut sled::Db, key: &Vec<u8>, value: &Vec<u8>) -> (r: Result<
    (),
    String,
>)
    ensures
        r is Ok ==> store_contents(*final(db)) == store_contents(*old(db)).insert(key@, value@),
{
    match db.insert(key.as_slice(), value.as_slice()) {
        Ok(_) => Ok(()),
        Err(e) => Err(format!("{e}")),
    }
}

/// Relies on sled::Tree::get: a point lookup of `key`. On success it returns
/// the value the tree holds under `key`, or nothing when the key is absent.
#[verifier::external_body]
pub(crate) fn store_get(db: &sled::Db, key: &Vec<u8>) -> (r: Result<Option<Vec<u8>>, String>)
    ensures
        match r {
            Ok(Some(v)) => store_contents(*db).contains_key(key@) && v@ == store_contents(*db)[key@],
            Ok(None) => !store_contents(*db).contains_key(key@),
            Err(_) => true,
        },
{
    match db.get(key.as_slice()) {
        Ok(Some(ivec)) => Ok(Some(ivec.to_vec())),
        Ok(None) => Ok(None),
        Err(e) => Err(format!("{e}")),
    }
}

} // verus!
