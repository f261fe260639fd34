//! An in-memory storage backend.
//!
//! A verified implementation of the storage contract over plain vectors,
//! suitable as a test double and as the reference model of what a backend
//! must do.

use vstd::prelude::*;

use vstd::slice::slice_to_vec;
use vstd::string::StringExecFns;

use crate::alist::{
    alist_map, alist_unique, lemma_alist_map_contains, lemma_alist_map_dom,
    lemma_alist_map_dom_exists, lemma_alist_map_index, lemma_alist_push, lemma_alist_swap_remove,
};
use crate::codec::str_eq;
use crate::error::Error;
use crate::storage::StorageProvider;

verus! {

/// The address of one stored object.
struct ObjectId {
    bucket: String,
    shard_id: usize,
}

impl View for ObjectId {
    type V = (Seq<char>, usize);

    closed spec fn view(&self) -> (Seq<char>, usize) {
        (self.bucket@, self.shard_id)
    }
}

/// The bucket-name set denoted by a sequence of names.
pub open spec fn bucket_set(s: Seq<String>) -> Set<Seq<char>>
    decreases s.len(),
{
    if s.len() == 0 {
        Set::empty()
    } else {
        bucket_set(s.drop_last()).insert(s.last()@)
    }
}

proof fn lemma_bucket_set_contains(s: Seq<String>, i: int)
    requires
        0 <= i < s.len(),
    ensures
        bucket_set(s).contains(s[i]@),
    decreases s.len(),
{
    if i < s.len() - 1 {
        lemma_bucket_set_contains(s.drop_last(), i);
        assert(s.drop_last()[i] == s[i]);
    }
}

proof fn lemma_bucket_set_exists(s: Seq<String>, k: Seq<char>)
    requires
        bucket_set(s).contains(k),
    ensures
        exists|i: int| 0 <= i < s.len() && s[i]@ == k,
    decreases s.len(),
{
    if s.len() > 0 {
        if k == s.last()@ {
            assert(s[s.len() - 1]@ == k);
        } else {
            lemma_bucket_set_exists(s.drop_last(), k);
            let i = choose|i: int| 0 <= i < s.drop_last().len() && s.drop_last()[i]@ == k;
            assert(s[i]@ == k);
        }
    }
}

proof fn lemma_bucket_set_push(s: Seq<String>, x: String)
    ensures
        bucket_set(s.push(x)) == bucket_set(s).insert(x@),
{
    assert(s.push(x).drop_last() =~= s);
}

proof fn lemma_bucket_set_swap_remove(s: Seq<String>, i: int)
    requires
        0 <= i < s.len(),
        forall|a: int, b: int| 0 <= a < b < s.len() ==> s[a]@ != s[b]@,
    ensures
        ({
            let t = s.update(i, s.last()).drop_last();
            &&& bucket_set(t) == bucket_set(s).remove(s[i]@)
            &&& forall|a: int, b: int| 0 <= a < b < t.len() ==> t[a]@ != t[b]@
        }),
{
    let t = s.update(i, s.last()).drop_last();
    if i == s.len() - 1 {
        assert(t =~= s.drop_last());
    }
    assert forall|k: Seq<char>| #[trigger] bucket_set(t).contains(k) implies bucket_set(s).remove(
        s[i]@,
    ).contains(k) by {
        lemma_bucket_set_exists(t, k);
        let j = choose|j: int| 0 <= j < t.len() && t[j]@ == k;
        let j2: int = if j == i {
            s.len() - 1
        } else {
            j
        };
        assert(s[j2]@ == k);
        lemma_bucket_set_contains(s, j2);
        assert(k != s[i]@);
    }
    assert forall|k: Seq<char>| #[trigger] bucket_set(s).remove(s[i]@).contains(k) implies
        bucket_set(t).contains(k) by {
        lemma_bucket_set_exists(s, k);
        let j = choose|j: int| 0 <= j < s.len() && s[j]@ == k;
        assert(j != i);
        if j == s.len() - 1 {
            assert(i < s.len() - 1);
            assert(t[i]@ == k);
            lemma_bucket_set_contains(t, i);
        } else {
            assert(t[j]@ == k);
            lemma_bucket_set_contains(t, j);
        }
    }
    assert(bucket_set(t) =~= bucket_set(s).remove(s[i]@));
}

/// The position of some pair under the given bucket, if any.
fn find_by_bucket(store: &Vec<(ObjectId, Vec<u8>)>, name: &str) -> (r: Option<usize>)
    ensures
        r matches Some(i) ==> i < store@.len() && store@[i as int].0@.0 == name@,
        r is None ==> forall|j: int|
            0 <= j < store@.len() ==> (#[trigger] store@[j].0@).0 != name@,
{
    let mut i: usize = 0;
    while i < store.len()
        invariant
            i <= store@.len(),
            forall|j: int| 0 <= j < i ==> (#[trigger] store@[j].0@).0 != name@,
        decreases store@.len() - i,
    {
        if str_eq(store[i].0.bucket.as_str(), name) {
            return Some(i);
        }
        i += 1;
    }
    None
}

/// An in-memory backend: every bucket and object lives in process memory.
pub struct MemoryStorageProvider {
    buckets: Vec<String>,
    store: Vec<(ObjectId, Vec<u8>)>,
}

impl MemoryStorageProvider {
    #[verifier::type_invariant]
    spec fn inv(&self) -> bool {
        &&& alist_unique(self.store@)
        &&& forall|a: int, b: int|
            0 <= a < b < self.buckets@.len() ==> self.buckets@[a]@ != self.buckets@[b]@
    }

    /// An empty backend.
    pub fn new() -> (r: Self)
        ensures
            r.objects() == Map::<(Seq<char>, usize), Seq<u8>>::empty(),
            r.buckets() == Set::<Seq<char>>::empty(),
    {
        MemoryStorageProvider { buckets: Vec::new(), store: Vec::new() }
    }

    /// The position of the object with the given address, if any.
    fn find_object(&self, bucket: &str, shard_id: usize) -> (r: Option<usize>)
        ensures
            r matches Some(i) ==> i < self.store@.len() && self.store@[i as int].0@ == (
                bucket@,
                shard_id,
            ),
            r is None ==> forall|i: int|
                0 <= i < self.store@.len() ==> (#[trigger] self.store@[i].0@) != (
                bucket@,
                shard_id,
                ),
    {
        let mut i: usize = 0;
        while i < self.store.len()
            invariant
                i <= self.store@.len(),
                forall|j: int|
                    0 <= j < i ==> (#[trigger] self.store@[j].0@) != (bucket@, shard_id),
            decreases self.store@.len() - i,
        {
            let oid = &self.store[i].0;
            if oid.shard_id == shard_id && str_eq(oid.bucket.as_str(), bucket) {
                return Some(i);
            }
            i += 1;
        }
        None
    }

    /// The position of the bucket with the given name, if any.
    fn find_bucket(&self, name: &str) -> (r: Option<usize>)
        ensures
            r matches Some(i) ==> i < self.buckets@.len() && self.buckets@[i as int]@ == name@,
            r is None ==> forall|i: int|
                0 <= i < self.buckets@.len() ==> (#[trigger] self.buckets@[i]@) != name@,
    {
        let mut i: usize = 0;
        while i < self.buckets.len()
            invariant
                i <= self.buckets@.len(),
                forall|j: int| 0 <= j < i ==> (#[trigger] self.buckets@[j]@) != name@,
            decreases self.buckets@.len() - i,
        {
            if str_eq(self.buckets[i].as_str(), name) {
                return Some(i);
            }
            i += 1;
        }
        None
    }
}

impl StorageProvider for MemoryStorageProvider {
    closed spec fn objects(&self) -> Map<(Seq<char>, usize), Seq<u8>> {
        alist_map(self.store@)
    }

    closed spec fn buckets(&self) -> Set<Seq<char>> {
        bucket_set(self.buckets@)
    }

    fn create_bucket(&mut self, name: &str) -> (r: Result<(), Error>) {
        proof {
            use_type_invariant(&*self);
        }
        match self.find_bucket(name) {
            Some(i) => {
                proof {
                    lemma_bucket_set_contains(self.buckets@, i as int);
                    assert(bucket_set(self.buckets@).insert(name@) =~= bucket_set(self.buckets@));
                }
            },
            None => {
                let mut names: Vec<String> = Vec::new();
                core::mem::swap(&mut names, &mut self.buckets);
                let ghost old_names = names@;
                names.push(name.to_owned());
                proof {
                    lemma_bucket_set_push(old_names, names@.last());
                }
                self.buckets = names;
            },
        }
        Ok(())
    }

    fn delete_bucket(&mut self, name: &str) -> (r: Result<(), Error>) {
        proof {
            use_type_invariant(&*self);
        }
        let ghost orig_objects = alist_map(self.store@);
        let ghost orig_buckets = bucket_set(self.buckets@);
        match self.find_bucket(name) {
            Some(i) => {
                let mut names: Vec<String> = Vec::new();
                core::mem::swap(&mut names, &mut self.buckets);
                let ghost old_names = names@;
                let _ = names.swap_remove(i);
                proof {
                    lemma_bucket_set_swap_remove(old_names, i as int);
                }
                self.buckets = names;
            },
            None => {
                proof {
                    if bucket_set(self.buckets@).contains(name@) {
                        lemma_bucket_set_exists(self.buckets@, name@);
                    }
                    assert(bucket_set(self.buckets@).remove(name@) =~= bucket_set(self.buckets@));
                }
            },
        }
        let mut store: Vec<(ObjectId, Vec<u8>)> = Vec::new();
        core::mem::swap(&mut store, &mut self.store);
        loop
            invariant
                alist_unique(store@),
                forall|k: (Seq<char>, usize)|
                    #[trigger] alist_map(store@).contains_key(k) ==> orig_objects.contains_key(k)
                        && alist_map(store@)[k] == orig_objects[k],
                forall|k: (Seq<char>, usize)|
                    orig_objects.contains_key(k) && k.0 != name@ ==> #[trigger] alist_map(
                        store@,
                    ).contains_key(k),
            ensures
                forall|k: (Seq<char>, usize)|
                    #[trigger] alist_map(store@).contains_key(k) ==> (orig_objects.contains_key(k)
                        && alist_map(store@)[k] == orig_objects[k] && k.0 != name@),
                forall|k: (Seq<char>, usize)|
                    orig_objects.contains_key(k) && k.0 != name@ ==> #[trigger] alist_map(
                        store@,
                    ).contains_key(k),
                alist_unique(store@),
            decreases store@.len(),
        {
            let found = find_by_bucket(&store, name);
            match found {
                Some(i) => {
                    let ghost pairs = store@;
                    let _ = store.swap_remove(i);
                    proof {
                        lemma_alist_swap_remove(pairs, i as int);
                        assert(pairs[i as int].0@.0 == name@);
                    }
                },
                None => {
                    proof {
                        assert forall|k: (Seq<char>, usize)| #[trigger] alist_map(
                            store@,
                        ).contains_key(k) implies k.0 != name@ by {
                            lemma_alist_map_dom_exists(store@, k);
                            let j = choose|j: int| 0 <= j < store@.len() && store@[j].0@ == k;
                            assert(store@[j].0@.0 != name@);
                        }
                    }
                    break ;
                },
            }
        }
        self.store = store;
        Ok(())
    }

    fn bucket_exists(&self, name: &str) -> (r: Result<bool, Error>) {
        proof {
            use_type_invariant(&*self);
        }
        match self.find_bucket(name) {
            Some(i) => {
                proof {
                    lemma_bucket_set_contains(self.buckets@, i as int);
                }
                Ok(true)
            },
            None => {
                proof {
                    if bucket_set(self.buckets@).contains(name@) {
                        lemma_bucket_set_exists(self.buckets@, name@);
                    }
                }
                Ok(false)
            },
        }
    }

    fn write(&mut self, bucket: &str, shard_id: usize, data: &[u8]) -> (r: Result<(), Error>) {
        proof {
            use_type_invariant(&*self);
        }
        let ghost orig = alist_map(self.store@);
        let id = ObjectId { bucket: bucket.to_owned(), shard_id };
        let value = slice_to_vec(data);
        let found = self.find_object(bucket, shard_id);
        let mut store: Vec<(ObjectId, Vec<u8>)> = Vec::new();
        core::mem::swap(&mut store, &mut self.store);
        match found {
            Some(i) => {
                let ghost pairs = store@;
                let _ = store.swap_remove(i);
                let ghost mid = store@;
                store.push((id, value));
                proof {
                    lemma_alist_swap_remove(pairs, i as int);
                    lemma_alist_map_dom(mid);
                    lemma_alist_push(mid, store@.last());
                    assert(orig.remove((bucket@, shard_id)).insert((bucket@, shard_id), data@)
                        =~= orig.insert((bucket@, shard_id), data@));
                }
            },
            None => {
                let ghost pairs = store@;
                store.push((id, value));
                proof {
                    lemma_alist_push(pairs, store@.last());
                }
            },
        }
        self.store = store;
        Ok(())
    }

    fn read(&self, bucket: &str, shard_id: usize) -> (r: Result<Vec<u8>, Error>) {
        proof {
            use_type_invariant(&*self);
        }
        match self.find_object(bucket, shard_id) {
            Some(i) => {
                proof {
                    lemma_alist_map_index(self.store@, i as int);
                }
                Ok(slice_to_vec(self.store[i].1.as_slice()))
            },
            None => Err(Error::Io(String::from_str("object not found"))),
        }
    }

    fn delete(&mut self, bucket: &str, shard_id: usize) -> (r: Result<(), Error>) {
        proof {
            use_type_invariant(&*self);
        }
        match self.find_object(bucket, shard_id) {
            Some(i) => {
                let mut store: Vec<(ObjectId, Vec<u8>)> = Vec::new();
                core::mem::swap(&mut store, &mut self.store);
                let ghost pairs = store@;
                let _ = store.swap_remove(i);
                proof {
                    lemma_alist_swap_remove(pairs, i as int);
                }
                self.store = store;
                Ok(())
            },
            None => Err(Error::Io(String::from_str("object not found"))),
        }
    }

    fn list(&self, bucket: &str) -> (r: Result<Vec<usize>, Error>) {
        proof {
            use_type_invariant(&*self);
            lemma_alist_map_dom(self.store@);
        }
        let mut ids: Vec<usize> = Vec::new();
        let mut i: usize = 0;
        while i < self.store.len()
            invariant
                i <= self.store@.len(),
                alist_unique(self.store@),
                forall|j: int|
                    0 <= j < ids@.len() ==> exists|j2: int|
                        0 <= j2 < i && self.store@[j2].0@ == (bucket@, #[trigger] ids@[j]),
                forall|j: int|
                    0 <= j < i && (#[trigger] self.store@[j].0@).0 == bucket@ ==> ids@.contains(
                        self.store@[j].0@.1,
                    ),
                ids@.no_duplicates(),
            decreases self.store@.len() - i,
        {
            let oid = &self.store[i].0;
            let matches_bucket = str_eq(oid.bucket.as_str(), bucket);
            let ghost old_ids = ids@;
            let ghost new_id = self.store@[i as int].0@.1;
            if matches_bucket {
                proof {
                    assert(self.store@[i as int].0@ == (bucket@, new_id));
                    assert forall|j1: int| 0 <= j1 < old_ids.len() implies old_ids[j1]
                        != new_id by {
                        let j2 = choose|j2: int|
                            0 <= j2 < i && self.store@[j2].0@ == (bucket@, old_ids[j1]);
                        if old_ids[j1] == new_id {
                            assert(self.store@[j2].0@ == self.store@[i as int].0@);
                        }
                    }
                }
                ids.push(oid.shard_id);
                proof {
                    assert(ids@ == old_ids.push(new_id));
                    assert forall|a: int, b: int| 0 <= a < b < ids@.len() implies ids@[a]
                        != ids@[b] by {
                        if b == ids@.len() - 1 {
                            assert(ids@[a] == old_ids[a] && ids@[b] == new_id);
                        }
                    }
                }
            }
            proof {
                assert forall|j: int|
                    0 <= j < i + 1 && (#[trigger] self.store@[j].0@).0
                        == bucket@ implies ids@.contains(self.store@[j].0@.1) by {
                    if j == i as int {
                        assert(ids@[ids@.len() - 1] == new_id);
                    } else {
                        let idx = choose|idx: int|
                            0 <= idx < old_ids.len() && old_ids[idx] == self.store@[j].0@.1;
                        assert(ids@[idx] == self.store@[j].0@.1);
                    }
                }
                assert forall|j: int| 0 <= j < ids@.len() implies exists|j2: int|
                    0 <= j2 < i + 1 && self.store@[j2].0@ == (bucket@, #[trigger] ids@[j]) by {
                    if j < old_ids.len() {
                        let j2 = choose|j2: int|
                            0 <= j2 < i && self.store@[j2].0@ == (bucket@, old_ids[j]);
                        assert(0 <= j2 < i + 1 && self.store@[j2].0@ == (bucket@, ids@[j]));
                    } else {
                        assert(self.store@[i as int].0@ == (bucket@, ids@[j]));
                    }
                }
            }
            i += 1;
        }
        proof {
            assert forall|j: int| 0 <= j < ids@.len() implies alist_map(
                self.store@,
            ).contains_key((bucket@, #[trigger] ids@[j])) by {
                let j2 = choose|j2: int|
                    0 <= j2 < self.store@.len() && self.store@[j2].0@ == (bucket@, ids@[j]);
                lemma_alist_map_contains(self.store@, j2);
            }
            assert forall|id: usize| alist_map(self.store@).contains_key(
                (bucket@, id),
            ) implies ids@.contains(id) by {
                lemma_alist_map_dom_exists(self.store@, (bucket@, id));
                let j = choose|j: int|
                    0 <= j < self.store@.len() && self.store@[j].0@ == (bucket@, id);
                assert(self.store@[j].0@.0 == bucket@ && self.store@[j].0@.1 == id);
            }
        }
        Ok(ids)
    }
}

} // verus!
