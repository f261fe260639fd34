//! The storage backend abstraction.
//!
//! The engine runs over any durable key-addressed byte store with
//! bucket-namespace semantics: a local filesystem, a networked object store,
//! or an in-memory test double. It consumes only this contract and never
//! assumes byte-range reads or appends: each shard object is read and
//! written in full.
//!
//! An object is addressed by its bucket name and its shard id; a backend
//! maps that address to a path of its own (such as
//! `<bucket>/shard_<id as fixed-width hex>`).

use vstd::prelude::*;

use crate::error::Error;

verus! {

/// A durable byte store. Backend failures surface as `Io` errors and leave
/// the store's contents unchanged; no call is retried internally.
pub trait StorageProvider: Sized {
    /// The objects the backend holds: bucket name and shard id to bytes.
    /// The default stands for a backend whose model is not spelled out; a
    /// verified backend overrides it.
    open spec fn objects(&self) -> Map<(Seq<char>, usize), Seq<u8>> {
        Map::empty()
    }

    /// The bucket namespaces the backend holds. The default stands for a
    /// backend whose model is not spelled out; a verified backend overrides
    /// it.
    open spec fn buckets(&self) -> Set<Seq<char>> {
        Set::empty()
    }

    /// Creates a bucket namespace; creating an existing one is a no-op.
    fn create_bucket(&mut self, name: &str) -> (r: Result<(), Error>)
        ensures
            r is Ok ==> {
                &&& final(self).buckets() == old(self).buckets().insert(name@)
                &&& final(self).objects() == old(self).objects()
            },
            r matches Err(e) ==> {
                &&& final(self).buckets() == old(self).buckets()
                &&& final(self).objects() == old(self).objects()
                &&& e matches Error::Io(_)
            },
    ;

    /// Deletes a bucket namespace and every object under it.
    fn delete_bucket(&mut self, name: &str) -> (r: Result<(), Error>)
        ensures
            r is Ok ==> {
                &&& final(self).buckets() == old(self).buckets().remove(name@)
                &&& forall|a: (Seq<char>, usize)|
                    #[trigger] final(self).objects().contains_key(a) <==> (old(
                        self,
                    ).objects().contains_key(a) && a.0 != name@)
                &&& forall|a: (Seq<char>, usize)|
                    #[trigger] final(self).objects().contains_key(a) ==> final(self).objects()[a]
                        == old(self).objects()[a]
            },
            r matches Err(e) ==> {
                &&& final(self).buckets() == old(self).buckets()
                &&& final(self).objects() == old(self).objects()
                &&& e matches Error::Io(_)
            },
    ;

    /// Whether a bucket namespace exists.
    fn bucket_exists(&self, name: &str) -> (r: Result<bool, Error>)
        ensures
            r matches Ok(b) ==> b == self.buckets().contains(name@),
            r matches Err(e) ==> e matches Error::Io(_),
    ;

    /// Writes an object in full, overwriting any previous bytes under the
    /// same address.
    fn write(&mut self, bucket: &str, shard_id: usize, data: &[u8]) -> (r: Result<(), Error>)
        ensures
            r is Ok ==> {
                &&& final(self).objects() == old(self).objects().insert(
                    (bucket@, shard_id),
                    data@,
                )
                &&& final(self).buckets() == old(self).buckets()
            },
            r matches Err(e) ==> {
                &&& final(self).buckets() == old(self).buckets()
                &&& final(self).objects() == old(self).objects()
                &&& e matches Error::Io(_)
            },
    ;

    /// Reads an object in full. Reading an absent object is a backend
    /// error.
    fn read(&self, bucket: &str, shard_id: usize) -> (r: Result<Vec<u8>, Error>)
        ensures
            r matches Ok(v) ==> {
                &&& self.objects().contains_key((bucket@, shard_id))
                &&& v@ == self.objects()[(bucket@, shard_id)]
            },
            r matches Err(e) ==> e matches Error::Io(_),
    ;

    /// Deletes an object. Deleting an absent object is a backend error.
    fn delete(&mut self, bucket: &str, shard_id: usize) -> (r: Result<(), Error>)
        ensures
            r is Ok ==> {
                &&& final(self).objects() == old(self).objects().remove((bucket@, shard_id))
                &&& final(self).buckets() == old(self).buckets()
            },
            r matches Err(e) ==> {
                &&& final(self).buckets() == old(self).buckets()
                &&& final(self).objects() == old(self).objects()
                &&& e matches Error::Io(_)
            },
    ;

    /// Lists the shard ids of every object under a bucket, each exactly
    /// once, in no particular order.
    fn list(&self, bucket: &str) -> (r: Result<Vec<usize>, Error>)
        ensures
            r matches Ok(ids) ==> {
                &&& forall|j: int|
                    0 <= j < ids@.len() ==> self.objects().contains_key(
                        (bucket@, #[trigger] ids@[j]),
                    )
                &&& forall|id: usize|
                    self.objects().contains_key((bucket@, id)) ==> ids@.contains(id)
                &&& ids@.no_duplicates()
            },
            r matches Err(e) ==> e matches Error::Io(_),
    ;
}

} // verus!
