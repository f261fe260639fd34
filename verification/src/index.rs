//! The bucket index.
//!
//! A `BucketIndex` is the bucket-scoped directory: it maps each key to the
//! ordered sequence of `IndexEntry` placements that hold its data, and,
//! independently, to an opaque metadata blob. The index is a derived,
//! rebuildable cache: `build` reconstructs it purely from the shard objects
//! of a bucket.

use vstd::prelude::*;

use vstd::slice::slice_to_vec;
use vstd::string::StringExecFns;

use crate::alist::{
    alist_map, alist_unique, lemma_alist_map_dom, lemma_alist_map_dom_exists,
    lemma_alist_map_index, lemma_alist_push, lemma_alist_swap_remove,
};
use crate::codec::{parse_shard, spec_parse_shard, str_eq, Record, SpecRecord};
use crate::error::Error;
use crate::storage::StorageProvider;

verus! {

/// One physical placement of one logical write: which shard holds the
/// record, at which byte offset its frame begins, how many stored
/// (post-compression) data bytes it holds — trailing metadata excluded —
/// and the digest of the original uncompressed bytes.
#[derive(Clone, Copy, Debug)]
pub struct IndexEntry {
    pub shard_id: usize,
    pub offset: usize,
    pub size: usize,
    pub checksum: [u8; 32],
}

/// An `IndexEntry` at the specification level.
pub struct SpecEntry {
    pub shard_id: int,
    pub offset: int,
    pub size: int,
    pub checksum: Seq<u8>,
}

impl View for IndexEntry {
    type V = SpecEntry;

    open spec fn view(&self) -> SpecEntry {
        SpecEntry {
            shard_id: self.shard_id as int,
            offset: self.offset as int,
            size: self.size as int,
            checksum: self.checksum@,
        }
    }
}

impl IndexEntry {
    /// Constructs an entry from its parts.
    pub fn new(shard_id: usize, offset: usize, size: usize, checksum: [u8; 32]) -> (r: Self)
        ensures
            r == (IndexEntry { shard_id, offset, size, checksum }),
    {
        IndexEntry { shard_id, offset, size, checksum }
    }
}

/// The entry sequences of a key list, at the specification level.
pub open spec fn deep_seq(v: Seq<IndexEntry>) -> Seq<SpecEntry> {
    v.map_values(|e: IndexEntry| e@)
}

/// A map of entry sequences, at the specification level.
pub open spec fn deep_map(m: Map<Seq<char>, Seq<IndexEntry>>) -> Map<Seq<char>, Seq<SpecEntry>> {
    m.map_values(|v: Seq<IndexEntry>| deep_seq(v))
}

proof fn lemma_deep_map_insert(m: Map<Seq<char>, Seq<IndexEntry>>, k: Seq<char>, v: Seq<IndexEntry>)
    ensures
        deep_map(m.insert(k, v)) == deep_map(m).insert(k, deep_seq(v)),
{
    assert(deep_map(m.insert(k, v)) =~= deep_map(m).insert(k, deep_seq(v)));
}

proof fn lemma_deep_map_remove(m: Map<Seq<char>, Seq<IndexEntry>>, k: Seq<char>)
    ensures
        deep_map(m.remove(k)) == deep_map(m).remove(k),
{
    assert(deep_map(m.remove(k)) =~= deep_map(m).remove(k));
}

/// The bucket-scoped directory: keys to entry sequences, and keys to
/// metadata blobs, with independent lifecycles.
pub struct BucketIndex {
    entries: Vec<(String, Vec<IndexEntry>)>,
    metadata: Vec<(String, Vec<u8>)>,
}

impl BucketIndex {
    #[verifier::type_invariant]
    spec fn inv(&self) -> bool {
        &&& alist_unique(self.entries@)
        &&& alist_unique(self.metadata@)
    }

    /// The key-to-entries mapping this index denotes.
    pub closed spec fn entries_map(&self) -> Map<Seq<char>, Seq<SpecEntry>> {
        deep_map(alist_map(self.entries@))
    }

    /// The key-to-metadata mapping this index denotes.
    pub closed spec fn metadata_map(&self) -> Map<Seq<char>, Seq<u8>> {
        alist_map(self.metadata@)
    }

    /// An empty index.
    pub fn new() -> (r: Self)
        ensures
            r.entries_map() == Map::<Seq<char>, Seq<SpecEntry>>::empty(),
            r.metadata_map() == Map::<Seq<char>, Seq<u8>>::empty(),
    {
        let r = BucketIndex { entries: Vec::new(), metadata: Vec::new() };
        proof {
            assert(r.entries_map() =~= Map::<Seq<char>, Seq<SpecEntry>>::empty());
        }
        r
    }

    /// The position of a key in the entry list, if present.
    fn find_entries(&self, key: &str) -> (r: Option<usize>)
        ensures
            r matches Some(i) ==> i < self.entries@.len() && self.entries@[i as int].0@ == key@,
            r is None ==> forall|j: int|
                0 <= j < self.entries@.len() ==> (#[trigger] self.entries@[j].0@) != key@,
    {
        let mut i: usize = 0;
        while i < self.entries.len()
            invariant
                i <= self.entries@.len(),
                forall|j: int| 0 <= j < i ==> (#[trigger] self.entries@[j].0@) != key@,
            decreases self.entries@.len() - i,
        {
            if str_eq(self.entries[i].0.as_str(), key) {
                return Some(i);
            }
            i += 1;
        }
        None
    }

    /// The position of a key in the metadata list, if present.
    fn find_metadata(&self, key: &str) -> (r: Option<usize>)
        ensures
            r matches Some(i) ==> i < self.metadata@.len() && self.metadata@[i as int].0@ == key@,
            r is None ==> forall|j: int|
                0 <= j < self.metadata@.len() ==> (#[trigger] self.metadata@[j].0@) != key@,
    {
        let mut i: usize = 0;
        while i < self.metadata.len()
            invariant
                i <= self.metadata@.len(),
                forall|j: int| 0 <= j < i ==> (#[trigger] self.metadata@[j].0@) != key@,
            decreases self.metadata@.len() - i,
        {
            if str_eq(self.metadata[i].0.as_str(), key) {
                return Some(i);
            }
            i += 1;
        }
        None
    }

    /// The entry sequence of a key, if the key has one.
    pub fn get_entries(&self, key: &str) -> (r: Option<&Vec<IndexEntry>>)
        ensures
            r matches Some(v) ==> self.entries_map().contains_key(key@)
                && self.entries_map()[key@] == deep_seq(v@),
            r is None ==> !self.entries_map().contains_key(key@),
    {
        proof {
            use_type_invariant(&*self);
            lemma_alist_map_dom(self.entries@);
        }
        match self.find_entries(key) {
            Some(i) => {
                proof {
                    lemma_alist_map_index(self.entries@, i as int);
                }
                Some(&self.entries[i].1)
            },
            None => {
                proof {
                    if alist_map(self.entries@).contains_key(key@) {
                        lemma_alist_map_dom_exists(self.entries@, key@);
                    }
                }
                None
            },
        }
    }

    /// The metadata blob of a key, if the key has one.
    pub fn get_metadata(&self, key: &str) -> (r: Option<&Vec<u8>>)
        ensures
            r matches Some(v) ==> self.metadata_map().contains_key(key@)
                && self.metadata_map()[key@] == v@,
            r is None ==> !self.metadata_map().contains_key(key@),
    {
        proof {
            use_type_invariant(&*self);
        }
        match self.find_metadata(key) {
            Some(i) => {
                proof {
                    lemma_alist_map_index(self.metadata@, i as int);
                }
                Some(&self.metadata[i].1)
            },
            None => {
                proof {
                    if alist_map(self.metadata@).contains_key(key@) {
                        lemma_alist_map_dom_exists(self.metadata@, key@);
                    }
                }
                None
            },
        }
    }

    /// Appends one entry to a key's sequence, starting the sequence if the
    /// key is new. A record is never partially indexed: this is called only
    /// after the backing write has succeeded.
    pub fn push_entry(&mut self, key: &str, entry: IndexEntry)
        ensures
            final(self).entries_map() == old(self).entries_map().insert(
                key@,
                (if old(self).entries_map().contains_key(key@) {
                    old(self).entries_map()[key@]
                } else {
                    Seq::empty()
                }).push(entry@),
            ),
            final(self).metadata_map() == old(self).metadata_map(),
    {
        proof {
            use_type_invariant(&*self);
            lemma_alist_map_dom(self.entries@);
        }
        let found = self.find_entries(key);
        let mut entries: Vec<(String, Vec<IndexEntry>)> = Vec::new();
        core::mem::swap(&mut entries, &mut self.entries);
        let ghost orig = alist_map(entries@);
        match found {
            Some(i) => {
                let ghost pairs = entries@;
                let (k, mut v) = entries.swap_remove(i);
                let ghost mid = entries@;
                let ghost old_v = v@;
                v.push(entry);
                entries.push((k, v));
                proof {
                    lemma_alist_swap_remove(pairs, i as int);
                    lemma_alist_map_dom(mid);
                    lemma_alist_push(mid, entries@.last());
                    lemma_alist_map_index(pairs, i as int);
                    assert(orig.remove(key@).insert(key@, old_v.push(entry)) =~= orig.insert(
                        key@,
                        old_v.push(entry),
                    ));
                    lemma_deep_map_insert(orig, key@, old_v.push(entry));
                    assert(deep_seq(old_v.push(entry)) =~= deep_seq(old_v).push(entry@));
                }
            },
            None => {
                let ghost pairs = entries@;
                let mut v: Vec<IndexEntry> = Vec::new();
                v.push(entry);
                entries.push((key.to_owned(), v));
                proof {
                    lemma_alist_push(pairs, entries@.last());
                    lemma_deep_map_insert(orig, key@, entries@.last().1@);
                    assert(deep_seq(entries@.last().1@) =~= Seq::<SpecEntry>::empty().push(
                        entry@,
                    ));
                }
            },
        }
        self.entries = entries;
    }

    /// Sets a key's metadata blob, overwriting any previous one: the most
    /// recent write wins.
    pub fn set_metadata(&mut self, key: &str, value: Vec<u8>)
        ensures
            final(self).metadata_map() == old(self).metadata_map().insert(key@, value@),
            final(self).entries_map() == old(self).entries_map(),
    {
        proof {
            use_type_invariant(&*self);
        }
        let found = self.find_metadata(key);
        let mut metadata: Vec<(String, Vec<u8>)> = Vec::new();
        core::mem::swap(&mut metadata, &mut self.metadata);
        let ghost orig = alist_map(metadata@);
        match found {
            Some(i) => {
                let ghost pairs = metadata@;
                let _ = metadata.swap_remove(i);
                let ghost mid = metadata@;
                metadata.push((key.to_owned(), value));
                proof {
                    lemma_alist_swap_remove(pairs, i as int);
                    lemma_alist_map_dom(mid);
                    lemma_alist_push(mid, metadata@.last());
                    assert(orig.remove(key@).insert(key@, value@) =~= orig.insert(key@, value@));
                }
            },
            None => {
                let ghost pairs = metadata@;
                metadata.push((key.to_owned(), value));
                proof {
                    lemma_alist_push(pairs, metadata@.last());
                }
            },
        }
        self.metadata = metadata;
    }

    /// Removes a key's entry sequence and yields it, if the key had one.
    pub fn remove_entries(&mut self, key: &str) -> (r: Option<Vec<IndexEntry>>)
        ensures
            final(self).entries_map() == old(self).entries_map().remove(key@),
            final(self).metadata_map() == old(self).metadata_map(),
            r matches Some(v) ==> old(self).entries_map().contains_key(key@) && deep_seq(v@) == old(
                self,
            ).entries_map()[key@],
            r is None ==> !old(self).entries_map().contains_key(key@),
    {
        proof {
            use_type_invariant(&*self);
            lemma_alist_map_dom(self.entries@);
        }
        let found = self.find_entries(key);
        match found {
            Some(i) => {
                let mut entries: Vec<(String, Vec<IndexEntry>)> = Vec::new();
                core::mem::swap(&mut entries, &mut self.entries);
                let ghost pairs = entries@;
                let (_, v) = entries.swap_remove(i);
                proof {
                    lemma_alist_swap_remove(pairs, i as int);
                    lemma_alist_map_index(pairs, i as int);
                    lemma_deep_map_remove(alist_map(pairs), key@);
                }
                self.entries = entries;
                Some(v)
            },
            None => {
                proof {
                    if alist_map(self.entries@).contains_key(key@) {
                        lemma_alist_map_dom_exists(self.entries@, key@);
                    }
                    assert(alist_map(self.entries@).remove(key@) =~= alist_map(self.entries@));
                    lemma_deep_map_remove(alist_map(self.entries@), key@);
                }
                None
            },
        }
    }

    /// Removes a key's metadata blob if it has one; removing an absent one
    /// is a no-op.
    pub fn remove_metadata(&mut self, key: &str)
        ensures
            final(self).metadata_map() == old(self).metadata_map().remove(key@),
            final(self).entries_map() == old(self).entries_map(),
    {
        proof {
            use_type_invariant(&*self);
        }
        let found = self.find_metadata(key);
        match found {
            Some(i) => {
                let mut metadata: Vec<(String, Vec<u8>)> = Vec::new();
                core::mem::swap(&mut metadata, &mut self.metadata);
                let ghost pairs = metadata@;
                let _ = metadata.swap_remove(i);
                proof {
                    lemma_alist_swap_remove(pairs, i as int);
                }
                self.metadata = metadata;
            },
            None => {
                proof {
                    if alist_map(self.metadata@).contains_key(key@) {
                        lemma_alist_map_dom_exists(self.metadata@, key@);
                    }
                    assert(alist_map(self.metadata@).remove(key@) =~= alist_map(self.metadata@));
                }
            },
        }
    }
}

/// The entry a record at frame offset `off` of shard `sid` is indexed
/// under.
pub open spec fn spec_entry_of(sid: usize, off: int, rec: SpecRecord) -> SpecEntry {
    SpecEntry {
        shard_id: sid as int,
        offset: off,
        size: rec.data.len() as int,
        checksum: rec.checksum,
    }
}

/// Merges one record, found at its frame offset in shard `sid`, into the
/// index maps: the entry is appended to the record's key, and a metadata
/// blob, when the record carries one, overwrites the key's previous one.
pub open spec fn spec_merge_record(
    em: Map<Seq<char>, Seq<SpecEntry>>,
    mm: Map<Seq<char>, Seq<u8>>,
    sid: usize,
    ro: (SpecRecord, int),
) -> (Map<Seq<char>, Seq<SpecEntry>>, Map<Seq<char>, Seq<u8>>) {
    let rec = ro.0;
    let prev = if em.contains_key(rec.key) {
        em[rec.key]
    } else {
        Seq::empty()
    };
    let em2 = em.insert(rec.key, prev.push(spec_entry_of(sid, ro.1, rec)));
    let mm2 = match rec.meta {
        Some(m) => mm.insert(rec.key, m),
        None => mm,
    };
    (em2, mm2)
}

/// Merges a shard's records in order: within a shard, record order is
/// preserved, which keeps multi-entry keys reconstructing correctly.
pub open spec fn spec_merge_records(
    em: Map<Seq<char>, Seq<SpecEntry>>,
    mm: Map<Seq<char>, Seq<u8>>,
    sid: usize,
    ros: Seq<(SpecRecord, int)>,
) -> (Map<Seq<char>, Seq<SpecEntry>>, Map<Seq<char>, Seq<u8>>)
    decreases ros.len(),
{
    if ros.len() == 0 {
        (em, mm)
    } else {
        let p = spec_merge_record(em, mm, sid, ros[0]);
        spec_merge_records(p.0, p.1, sid, ros.drop_first())
    }
}

/// Merges the listed shards in the given id order; `None` when a listed
/// object is absent or does not parse.
pub open spec fn spec_merge_shards(
    em: Map<Seq<char>, Seq<SpecEntry>>,
    mm: Map<Seq<char>, Seq<u8>>,
    objects: Map<(Seq<char>, usize), Seq<u8>>,
    name: Seq<char>,
    ids: Seq<usize>,
) -> Option<(Map<Seq<char>, Seq<SpecEntry>>, Map<Seq<char>, Seq<u8>>)>
    decreases ids.len(),
{
    if ids.len() == 0 {
        Some((em, mm))
    } else {
        let id = ids[0];
        if !objects.contains_key((name, id)) {
            None
        } else {
            match spec_parse_shard(objects[(name, id)]) {
                None => None,
                Some(ros) => {
                    let p = spec_merge_records(em, mm, id, ros);
                    spec_merge_shards(p.0, p.1, objects, name, ids.drop_first())
                },
            }
        }
    }
}

/// The index that rebuilding from the listed shards, in the given id order,
/// yields.
pub open spec fn spec_rebuild(
    objects: Map<(Seq<char>, usize), Seq<u8>>,
    name: Seq<char>,
    ids: Seq<usize>,
) -> Option<(Map<Seq<char>, Seq<SpecEntry>>, Map<Seq<char>, Seq<u8>>)> {
    spec_merge_shards(
        Map::<Seq<char>, Seq<SpecEntry>>::empty(),
        Map::<Seq<char>, Seq<u8>>::empty(),
        objects,
        name,
        ids,
    )
}

/// A strictly ascending listing of exactly the shard ids a bucket holds.
pub open spec fn spec_ids_ok(
    objects: Map<(Seq<char>, usize), Seq<u8>>,
    name: Seq<char>,
    ids: Seq<usize>,
) -> bool {
    &&& forall|a: int, b: int| 0 <= a < b < ids.len() ==> ids[a] < ids[b]
    &&& forall|id: usize| #[trigger] ids.contains(id) ==> objects.contains_key((name, id))
    &&& forall|id: usize| #[trigger] objects.contains_key((name, id)) ==> ids.contains(id)
}

/// Merging one more record is one more merge step.
pub proof fn lemma_merge_records_push(
    em: Map<Seq<char>, Seq<SpecEntry>>,
    mm: Map<Seq<char>, Seq<u8>>,
    sid: usize,
    ros: Seq<(SpecRecord, int)>,
    ro: (SpecRecord, int),
)
    ensures
        spec_merge_records(em, mm, sid, ros.push(ro)) == ({
            let p = spec_merge_records(em, mm, sid, ros);
            spec_merge_record(p.0, p.1, sid, ro)
        }),
    decreases ros.len(),
{
    if ros.len() == 0 {
        assert(ros.push(ro)[0] == ro);
        assert(ros.push(ro).drop_first() =~= Seq::<(SpecRecord, int)>::empty());
        let p = spec_merge_record(em, mm, sid, ro);
        assert(spec_merge_records(p.0, p.1, sid, ros.push(ro).drop_first()) == (p.0, p.1));
        assert(spec_merge_records(em, mm, sid, ros.push(ro)) == (p.0, p.1));
        assert(spec_merge_records(em, mm, sid, ros) == (em, mm));
    } else {
        assert(ros.push(ro)[0] == ros[0]);
        assert(ros.push(ro).drop_first() =~= ros.drop_first().push(ro));
        let p = spec_merge_record(em, mm, sid, ros[0]);
        lemma_merge_records_push(p.0, p.1, sid, ros.drop_first(), ro);
        assert(spec_merge_records(em, mm, sid, ros.push(ro)) == spec_merge_records(
            p.0,
            p.1,
            sid,
            ros.drop_first().push(ro),
        ));
        assert(spec_merge_records(em, mm, sid, ros) == spec_merge_records(
            p.0,
            p.1,
            sid,
            ros.drop_first(),
        ));
    }
}

/// Merging one more shard is one more fold step.
pub proof fn lemma_merge_shards_push(
    em: Map<Seq<char>, Seq<SpecEntry>>,
    mm: Map<Seq<char>, Seq<u8>>,
    objects: Map<(Seq<char>, usize), Seq<u8>>,
    name: Seq<char>,
    ids: Seq<usize>,
    id: usize,
)
    requires
        spec_merge_shards(em, mm, objects, name, ids) is Some,
        objects.contains_key((name, id)),
        spec_parse_shard(objects[(name, id)]) is Some,
    ensures
        spec_merge_shards(em, mm, objects, name, ids.push(id)) == ({
            let p = spec_merge_shards(em, mm, objects, name, ids)->Some_0;
            Some(spec_merge_records(p.0, p.1, id, spec_parse_shard(objects[(name, id)])->Some_0))
        }),
    decreases ids.len(),
{
    let ros_new = spec_parse_shard(objects[(name, id)])->Some_0;
    if ids.len() == 0 {
        assert(ids.push(id)[0] == id);
        assert(ids.push(id).drop_first() =~= Seq::<usize>::empty());
        let p = spec_merge_records(em, mm, id, ros_new);
        assert(spec_merge_shards(p.0, p.1, objects, name, ids.push(id).drop_first()) == Some(
            (p.0, p.1),
        ));
        assert(spec_merge_shards(em, mm, objects, name, ids.push(id)) == Some((p.0, p.1)));
        assert(spec_merge_shards(em, mm, objects, name, ids) == Some((em, mm)));
    } else {
        assert(ids.push(id)[0] == ids[0]);
        assert(ids.push(id).drop_first() =~= ids.drop_first().push(id));
        let ros0 = spec_parse_shard(objects[(name, ids[0])])->Some_0;
        let p = spec_merge_records(em, mm, ids[0], ros0);
        lemma_merge_shards_push(p.0, p.1, objects, name, ids.drop_first(), id);
        assert(spec_merge_shards(em, mm, objects, name, ids.push(id)) == spec_merge_shards(
            p.0,
            p.1,
            objects,
            name,
            ids.drop_first().push(id),
        ));
        assert(spec_merge_shards(em, mm, objects, name, ids) == spec_merge_shards(
            p.0,
            p.1,
            objects,
            name,
            ids.drop_first(),
        ));
    }
}

/// A merge that succeeds on a listing still succeeds without its last id.
pub proof fn lemma_merge_shards_snoc_some(
    em: Map<Seq<char>, Seq<SpecEntry>>,
    mm: Map<Seq<char>, Seq<u8>>,
    objects: Map<(Seq<char>, usize), Seq<u8>>,
    name: Seq<char>,
    ids: Seq<usize>,
    id: usize,
)
    requires
        spec_merge_shards(em, mm, objects, name, ids.push(id)) is Some,
    ensures
        spec_merge_shards(em, mm, objects, name, ids) is Some,
    decreases ids.len(),
{
    if ids.len() == 0 {
    } else {
        assert(ids.push(id)[0] == ids[0]);
        assert(ids.push(id).drop_first() =~= ids.drop_first().push(id));
        let ros0 = spec_parse_shard(objects[(name, ids[0])])->Some_0;
        let p = spec_merge_records(em, mm, ids[0], ros0);
        lemma_merge_shards_snoc_some(p.0, p.1, objects, name, ids.drop_first(), id);
    }
}

/// A successful merge fetched and parsed every listed shard.
pub proof fn lemma_merge_shards_all_parse(
    em: Map<Seq<char>, Seq<SpecEntry>>,
    mm: Map<Seq<char>, Seq<u8>>,
    objects: Map<(Seq<char>, usize), Seq<u8>>,
    name: Seq<char>,
    ids: Seq<usize>,
)
    requires
        spec_merge_shards(em, mm, objects, name, ids) is Some,
    ensures
        forall|j: int|
            0 <= j < ids.len() ==> objects.contains_key((name, #[trigger] ids[j]))
                && spec_parse_shard(objects[(name, ids[j])]) is Some,
    decreases ids.len(),
{
    if ids.len() > 0 {
        let ros0 = spec_parse_shard(objects[(name, ids[0])])->Some_0;
        let p = spec_merge_records(em, mm, ids[0], ros0);
        lemma_merge_shards_all_parse(p.0, p.1, objects, name, ids.drop_first());
        assert forall|j: int| 0 <= j < ids.len() implies objects.contains_key(
            (name, #[trigger] ids[j]),
        ) && spec_parse_shard(objects[(name, ids[j])]) is Some by {
            if j > 0 {
                assert(ids.drop_first()[j - 1] == ids[j]);
            }
        }
    }
}

/// Merging depends only on the listed objects: two object maps that agree
/// on every listed shard merge alike.
pub proof fn lemma_merge_shards_congruence(
    em: Map<Seq<char>, Seq<SpecEntry>>,
    mm: Map<Seq<char>, Seq<u8>>,
    obj1: Map<(Seq<char>, usize), Seq<u8>>,
    obj2: Map<(Seq<char>, usize), Seq<u8>>,
    name: Seq<char>,
    ids: Seq<usize>,
)
    requires
        forall|j: int|
            0 <= j < ids.len() ==> {
                &&& obj1.contains_key((name, #[trigger] ids[j])) == obj2.contains_key(
                    (name, ids[j]),
                )
                &&& obj1.contains_key((name, ids[j])) ==> obj1[(name, ids[j])] == obj2[(
                name,
                ids[j],
                )]
            },
    ensures
        spec_merge_shards(em, mm, obj1, name, ids) == spec_merge_shards(em, mm, obj2, name, ids),
    decreases ids.len(),
{
    if ids.len() > 0 {
        assert(ids[0] == ids[0]);
        assert forall|j: int| 0 <= j < ids.drop_first().len() implies {
            &&& obj1.contains_key((name, #[trigger] ids.drop_first()[j])) == obj2.contains_key(
                (name, ids.drop_first()[j]),
            )
            &&& obj1.contains_key((name, ids.drop_first()[j])) ==> obj1[(
            name,
            ids.drop_first()[j],
            )] == obj2[(name, ids.drop_first()[j])]
        } by {
            assert(ids.drop_first()[j] == ids[j + 1]);
        }
        if obj1.contains_key((name, ids[0])) {
            match spec_parse_shard(obj1[(name, ids[0])]) {
                Some(ros) => {
                    let p = spec_merge_records(em, mm, ids[0], ros);
                    lemma_merge_shards_congruence(p.0, p.1, obj1, obj2, name, ids.drop_first());
                },
                None => {},
            }
        }
    }
}

/// Whether any indexed entry references the shard.
pub open spec fn spec_shard_referenced(em: Map<Seq<char>, Seq<SpecEntry>>, sid: int) -> bool {
    exists|k: Seq<char>, j: int|
        #![trigger em[k][j]]
        em.contains_key(k) && 0 <= j < em[k].len() && em[k][j].shard_id == sid
}

/// Whether a shard id appears in a listing.
pub(crate) fn ids_contain(ids: &Vec<usize>, x: usize) -> (r: bool)
    ensures
        r == ids@.contains(x),
{
    let mut i: usize = 0;
    while i < ids.len()
        invariant
            i <= ids@.len(),
            forall|j: int| 0 <= j < i ==> ids@[j] != x,
        decreases ids@.len() - i,
    {
        if ids[i] == x {
            return true;
        }
        i += 1;
    }
    false
}

/// The largest shard id of a non-empty listing.
pub(crate) fn ids_max(ids: &Vec<usize>) -> (r: usize)
    requires
        ids@.len() > 0,
    ensures
        forall|j: int| 0 <= j < ids@.len() ==> ids@[j] <= r,
        ids@.contains(r),
{
    let mut best = ids[0];
    let mut i: usize = 1;
    assert(ids@[0] == best);
    while i < ids.len()
        invariant
            1 <= i <= ids@.len(),
            forall|j: int| 0 <= j < i ==> ids@[j] <= best,
            ids@.contains(best),
        decreases ids@.len() - i,
    {
        if ids[i] > best {
            best = ids[i];
            assert(ids@[i as int] == best);
        }
        i += 1;
    }
    best
}

impl BucketIndex {
    /// Merges one record, parsed at frame offset `off` of shard `sid`, into
    /// the index: one rebuild step.
    pub fn merge_record(&mut self, sid: usize, rec: &Record, off: usize)
        ensures
            (final(self).entries_map(), final(self).metadata_map()) == spec_merge_record(
                old(self).entries_map(),
                old(self).metadata_map(),
                sid,
                (rec@, off as int),
            ),
    {
        let entry = IndexEntry::new(sid, off, rec.data.len(), rec.checksum);
        self.push_entry(rec.key.as_str(), entry);
        match &rec.meta {
            Some(m) => {
                self.set_metadata(rec.key.as_str(), slice_to_vec(m.as_slice()));
            },
            None => {},
        }
        proof {
            assert(entry@ == spec_entry_of(sid, off as int, rec@));
        }
    }

    /// Whether any indexed entry references the shard.
    pub fn shard_referenced(&self, shard_id: usize) -> (r: bool)
        ensures
            r == spec_shard_referenced(self.entries_map(), shard_id as int),
    {
        proof {
            use_type_invariant(&*self);
            lemma_alist_map_dom(self.entries@);
        }
        let mut i: usize = 0;
        while i < self.entries.len()
            invariant
                i <= self.entries@.len(),
                alist_unique(self.entries@),
                forall|i2: int, j: int|
                    #![trigger self.entries@[i2].1@[j]]
                    0 <= i2 < i && 0 <= j < self.entries@[i2].1@.len()
                        ==> self.entries@[i2].1@[j].shard_id != shard_id,
            decreases self.entries@.len() - i,
        {
            let row = &self.entries[i].1;
            let mut j: usize = 0;
            while j < row.len()
                invariant
                    j <= row@.len(),
                    row@ == self.entries@[i as int].1@,
                    i < self.entries@.len(),
                    alist_unique(self.entries@),
                    forall|j2: int| 0 <= j2 < j ==> row@[j2].shard_id != shard_id,
                decreases row@.len() - j,
            {
                if row[j].shard_id == shard_id {
                    proof {
                        lemma_alist_map_index(self.entries@, i as int);
                        let k = self.entries@[i as int].0@;
                        assert(self.entries_map().contains_key(k));
                        assert(self.entries_map()[k] == deep_seq(self.entries@[i as int].1@));
                        assert(self.entries_map()[k][j as int].shard_id == shard_id as int);
                    }
                    return true;
                }
                j += 1;
            }
            i += 1;
        }
        proof {
            if spec_shard_referenced(self.entries_map(), shard_id as int) {
                let (k, j) = choose|k: Seq<char>, j: int|
                    #![trigger self.entries_map()[k][j]]
                    self.entries_map().contains_key(k) && 0 <= j < self.entries_map()[k].len()
                        && self.entries_map()[k][j].shard_id == shard_id as int;
                lemma_alist_map_dom_exists(self.entries@, k);
                let i2 = choose|i2: int|
                    0 <= i2 < self.entries@.len() && self.entries@[i2].0@ == k;
                lemma_alist_map_index(self.entries@, i2);
                assert(self.entries@[i2].1@[j].shard_id == shard_id);
            }
        }
        false
    }

    /// Reconstructs a bucket's index purely from its shard objects.
    ///
    /// Every shard object under the bucket is fetched and parsed, in
    /// ascending shard-id order, and the discovered records are merged. Up
    /// to `parallelism` fetches may be in flight at a time; this
    /// implementation fetches sequentially, a schedule every positive bound
    /// admits. A shard that cannot be parsed aborts the whole rebuild with
    /// an `Index` error: a reconstructed index is complete or explicitly
    /// failed, never silently partial.
    pub fn build<P: StorageProvider>(provider: &P, bucket: &str, parallelism: usize) -> (r: Result<
        BucketIndex,
        Error,
    >)
        requires
            parallelism >= 1,
        ensures
            r matches Ok(ix) ==> exists|ids: Seq<usize>|
                {
                    &&& #[trigger] spec_rebuild(provider.objects(), bucket@, ids) == Some(
                        (ix.entries_map(), ix.metadata_map()),
                    )
                    &&& spec_ids_ok(provider.objects(), bucket@, ids)
                },
            r matches Err(e) ==> (e matches Error::Io(_) || e matches Error::Index(_)),
            r matches Err(Error::Index(_)) ==> exists|id: usize|
                #[trigger] provider.objects().contains_key((bucket@, id)) && spec_parse_shard(
                    provider.objects()[(bucket@, id)],
                ) is None,
    {
        let listed = match provider.list(bucket) {
            Ok(v) => v,
            Err(e) => {
                return Err(e);
            },
        };
        let mut ix = BucketIndex::new();
        let ghost mut done_ids: Seq<usize> = Seq::empty();
        if listed.len() == 0 {
            proof {
                assert(spec_rebuild(provider.objects(), bucket@, done_ids) == Some(
                    (ix.entries_map(), ix.metadata_map()),
                ));
                assert forall|x: usize| #[trigger] provider.objects().contains_key(
                    (bucket@, x),
                ) implies done_ids.contains(x) by {
                    assert(listed@.contains(x));
                    let j = choose|j: int| 0 <= j < listed@.len() && listed@[j] == x;
                }
                assert(spec_ids_ok(provider.objects(), bucket@, done_ids));
            }
            return Ok(ix);
        }
        let max = ids_max(&listed);
        let mut id: usize = 0;
        loop
            invariant_except_break
                forall|x: usize| #[trigger] done_ids.contains(x) ==> x < id && listed@.contains(x),
            invariant
                id <= max,
                spec_rebuild(provider.objects(), bucket@, done_ids) == Some(
                    (ix.entries_map(), ix.metadata_map()),
                ),
                forall|a: int, b: int| 0 <= a < b < done_ids.len() ==> done_ids[a] < done_ids[b],
                forall|x: usize| listed@.contains(x) && x < id ==> #[trigger] done_ids.contains(x),
                forall|x: usize| #[trigger] listed@.contains(x) ==> provider.objects().contains_key(
                    (bucket@, x),
                ),
                forall|x: usize| #[trigger] provider.objects().contains_key((bucket@, x))
                    ==> listed@.contains(x),
                forall|x: usize| #[trigger] listed@.contains(x) ==> x <= max,
            ensures
                spec_rebuild(provider.objects(), bucket@, done_ids) == Some(
                    (ix.entries_map(), ix.metadata_map()),
                ),
                spec_ids_ok(provider.objects(), bucket@, done_ids),
            decreases max - id,
        {
            if ids_contain(&listed, id) {
                let bytes = match provider.read(bucket, id) {
                    Ok(b) => b,
                    Err(e) => {
                        return Err(e);
                    },
                };
                let parsed = match parse_shard(bytes.as_slice()) {
                    Some(v) => v,
                    None => {
                        return Err(
                            Error::Index(String::from_str("a shard object could not be parsed")),
                        );
                    },
                };
                let ghost em0 = ix.entries_map();
                let ghost mm0 = ix.metadata_map();
                let ghost ros = spec_parse_shard(provider.objects()[(bucket@, id)])->Some_0;
                proof {
                    assert(ros.take(0) =~= Seq::<(SpecRecord, int)>::empty());
                }
                let mut j: usize = 0;
                while j < parsed.len()
                    invariant
                        j <= parsed@.len(),
                        parsed@.len() == ros.len(),
                        forall|i2: int|
                            0 <= i2 < parsed@.len() ==> #[trigger] ros[i2] == (
                            parsed@[i2].0@,
                            parsed@[i2].1 as int,
                            ),
                        spec_merge_records(em0, mm0, id, ros.take(j as int)) == (
                        ix.entries_map(),
                        ix.metadata_map(),
                        ),
                    decreases parsed@.len() - j,
                {
                    let rec = &parsed[j].0;
                    let off = parsed[j].1;
                    ix.merge_record(id, rec, off);
                    proof {
                        assert(ros.take(j + 1) =~= ros.take(j as int).push(ros[j as int]));
                        lemma_merge_records_push(em0, mm0, id, ros.take(j as int), ros[j as int]);
                    }
                    j += 1;
                }
                proof {
                    assert(ros.take(ros.len() as int) =~= ros);
                    lemma_merge_shards_push(
                        Map::<Seq<char>, Seq<SpecEntry>>::empty(),
                        Map::<Seq<char>, Seq<u8>>::empty(),
                        provider.objects(),
                        bucket@,
                        done_ids,
                        id,
                    );
                    let ghost old_done = done_ids;
                    done_ids = done_ids.push(id);
                    assert(done_ids[done_ids.len() - 1] == id);
                    assert forall|a: int, b: int| 0 <= a < b < done_ids.len() implies done_ids[a]
                        < done_ids[b] by {
                        if b == done_ids.len() - 1 {
                            assert(old_done.contains(old_done[a]));
                        }
                    }
                    assert forall|x: usize| #[trigger] done_ids.contains(x) implies x <= id
                        && listed@.contains(x) by {
                        let j = choose|j: int| 0 <= j < done_ids.len() && done_ids[j] == x;
                        if j < done_ids.len() - 1 {
                            assert(old_done[j] == x);
                            assert(old_done.contains(x));
                        }
                    }
                    assert forall|x: usize| listed@.contains(x) && x <= id implies
                        done_ids.contains(x) by {
                        if x < id {
                            assert(old_done.contains(x));
                            let j = choose|j: int| 0 <= j < old_done.len() && old_done[j] == x;
                            assert(done_ids[j] == x);
                        } else {
                            assert(done_ids[done_ids.len() - 1] == x);
                        }
                    }
                }
            }
            if id == max {
                proof {
                    assert forall|x: usize| #[trigger] provider.objects().contains_key(
                        (bucket@, x),
                    ) implies done_ids.contains(x) by {
                        assert(listed@.contains(x));
                        assert(x <= max);
                        if x < id {
                        } else {
                            assert(x == id);
                        }
                    }
                }
                break ;
            }
            id += 1;
        }
        proof {
            assert(spec_rebuild(provider.objects(), bucket@, done_ids) == Some(
                (ix.entries_map(), ix.metadata_map()),
            ) && spec_ids_ok(provider.objects(), bucket@, done_ids));
        }
        Ok(ix)
    }
}

impl Default for BucketIndex {
    fn default() -> (r: Self)
        ensures
            r.entries_map() == Map::<Seq<char>, Seq<SpecEntry>>::empty(),
            r.metadata_map() == Map::<Seq<char>, Seq<u8>>::empty(),
    {
        BucketIndex::new()
    }
}

} // verus!
