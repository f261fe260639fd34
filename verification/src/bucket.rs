//! Buckets: the public-facing unit of organization.
//!
//! A bucket owns a `BucketIndex`, a set of shards, and a per-bucket
//! configuration. `write` checksums, compresses and appends a blob to the
//! active shard, rolling to a new shard when capacity would be exceeded;
//! `read` fetches the blob's records, decodes them and verifies every
//! checksum; `delete` removes a key from the index and reclaims shard
//! objects wholly owned by it.
//!
//! Writing and deleting take the bucket exclusively (`&mut self`), reading
//! and metadata lookups share it (`&self`): the reader/writer discipline of
//! the index is enforced by the borrow checker, so an index mutation is
//! atomic with respect to every reader and no reader ever observes a
//! partially updated entry sequence.

use vstd::prelude::*;

use vstd::slice::slice_to_vec;
use vstd::utf8::encode_utf8;

use crate::checksum::{compute_checksum, digest_of};
use crate::codec::{
    encode_record, lemma_parse_shard_from_append, rec_wf, spec_encode_record, spec_parse_shard,
    SpecRecord,
};
use crate::compress::{encode_data, supported, CompressionType};
use crate::error::Error;
use crate::index::{
    lemma_merge_records_push, lemma_merge_shards_all_parse, lemma_merge_shards_congruence,
    lemma_merge_shards_push, lemma_merge_shards_snoc_some, spec_entry_of, spec_merge_record,
    spec_merge_records, spec_merge_shards, spec_rebuild, spec_shard_referenced, BucketIndex,
    IndexEntry, SpecEntry,
};
use crate::shard::{read_entry_from, spec_entry_resolves, Shard, DEFAULT_SHARD_SIZE};
use crate::storage::StorageProvider;

verus! {

/// The immutable per-bucket policy: the compression algorithm, the target
/// shard capacity in bytes, and the index-rebuild fan-out.
#[derive(Clone, Copy, Debug)]
pub struct BucketConfig {
    pub compression: CompressionType,
    pub parallelism: usize,
    pub max_shard_size: usize,
}

impl BucketConfig {
    /// A policy with the given algorithm and rebuild fan-out, at the
    /// default shard capacity.
    pub fn new(compression: CompressionType, parallelism: usize) -> (r: Self)
        ensures
            r == (BucketConfig { compression, parallelism, max_shard_size: DEFAULT_SHARD_SIZE }),
    {
        BucketConfig { compression, parallelism, max_shard_size: DEFAULT_SHARD_SIZE }
    }

    /// The same policy with another shard capacity.
    pub fn with_max_shard_size(self, max_shard_size: usize) -> (r: Self)
        ensures
            r == (BucketConfig {
                compression: self.compression,
                parallelism: self.parallelism,
                max_shard_size,
            }),
    {
        BucketConfig { compression: self.compression, parallelism: self.parallelism, max_shard_size }
    }
}

impl Default for BucketConfig {
    fn default() -> (r: Self)
        ensures
            r == (BucketConfig {
                compression: CompressionType::NoCompression,
                parallelism: 1,
                max_shard_size: DEFAULT_SHARD_SIZE,
            }),
    {
        BucketConfig {
            compression: CompressionType::NoCompression,
            parallelism: 1,
            max_shard_size: DEFAULT_SHARD_SIZE,
        }
    }
}

/// The concatenation of a key's chunks, in write order.
pub open spec fn spec_concat(chunks: Seq<Seq<u8>>) -> Seq<u8>
    decreases chunks.len(),
{
    if chunks.len() == 0 {
        Seq::empty()
    } else {
        spec_concat(chunks.drop_last()) + chunks.last()
    }
}

/// A named bucket over a storage backend.
pub struct Bucket<P: StorageProvider> {
    name: String,
    provider: P,
    index: BucketIndex,
    shards: Vec<Shard>,
    config: BucketConfig,
    chunks: Ghost<Map<Seq<char>, Seq<Seq<u8>>>>,
}

impl<P: StorageProvider> Bucket<P> {
    /// The bucket's name.
    pub closed spec fn spec_name(&self) -> Seq<char> {
        self.name@
    }

    /// The bucket's configuration.
    pub closed spec fn spec_config(&self) -> BucketConfig {
        self.config
    }

    /// The bucket's compression algorithm.
    pub open spec fn compression(&self) -> CompressionType {
        self.spec_config().compression
    }

    /// The bucket's maximum shard size.
    pub open spec fn max_shard_size(&self) -> int {
        self.spec_config().max_shard_size as int
    }

    /// The backend's objects, as the bucket sees them.
    pub closed spec fn objects(&self) -> Map<(Seq<char>, usize), Seq<u8>> {
        self.provider.objects()
    }

    /// The logical contents of the bucket: each key's chunks — the
    /// original, uncompressed blobs — in write order.
    pub closed spec fn contents(&self) -> Map<Seq<char>, Seq<Seq<u8>>> {
        self.chunks@
    }

    /// The index's key-to-entries mapping.
    pub closed spec fn entries_map(&self) -> Map<Seq<char>, Seq<SpecEntry>> {
        self.index.entries_map()
    }

    /// The index's key-to-metadata mapping.
    pub closed spec fn metadata_map(&self) -> Map<Seq<char>, Seq<u8>> {
        self.index.metadata_map()
    }

    /// How many shards the bucket has allocated.
    pub closed spec fn spec_shard_count(&self) -> int {
        self.shards@.len() as int
    }

    /// The byte size of shard `i`'s object.
    pub closed spec fn spec_shard_size(&self, i: int) -> int {
        self.shards@[i].size as int
    }

    /// Whether shard `i`'s object exists in the backend. The active shard
    /// and every sealed shard are live; only a shard whose object `delete`
    /// reclaimed is not.
    pub closed spec fn spec_shard_live(&self, i: int) -> bool {
        self.shards@[i].live
    }

    /// Whether `e` is a valid placement whose stored record decodes to `d`.
    pub closed spec fn entry_ok(&self, e: SpecEntry, d: Seq<u8>) -> bool {
        &&& 0 <= e.shard_id < self.shards@.len()
        &&& self.shards@[e.shard_id].live
        &&& spec_entry_resolves(
            self.provider.objects(),
            self.name@,
            self.config.compression,
            e,
            d,
        )
    }

    /// The bucket's well-formedness: shard ids are their positions, no
    /// shard object exceeds the configured capacity, each live shard's
    /// in-memory mirror matches its backend object, and every index entry
    /// points at a live shard's record whose stored data decodes to the
    /// chunk recorded for it.
    pub closed spec fn wf(&self) -> bool {
        &&& self.config.parallelism >= 1
        &&& forall|i: int|
            0 <= i < self.shards@.len() ==> {
                let sh = #[trigger] self.shards@[i];
                &&& sh.id == i
                &&& sh.size == sh.data@.len()
                &&& sh.size <= self.config.max_shard_size
                &&& (sh.live ==> self.provider.objects().contains_key((self.name@, i as usize))
                    && self.provider.objects()[(self.name@, i as usize)] == sh.data@)
            }
        &&& self.chunks@.dom() == self.index.entries_map().dom()
        &&& forall|k: Seq<char>|
            #[trigger] self.index.entries_map().contains_key(k) ==> {
                let es = self.index.entries_map()[k];
                let cs = self.chunks@[k];
                &&& cs.len() == es.len()
                &&& forall|j: int| 0 <= j < es.len() ==> self.entry_ok(#[trigger] es[j], cs[j])
            }
    }

    /// Whether the index is exactly what a rebuild of the bucket's shards
    /// yields: the bucket's objects are shards 0 to `shard_count`, all
    /// live, and merging them in id order reproduces the index. This holds
    /// of a bucket populated purely through `write` calls.
    pub closed spec fn synced(&self) -> bool {
        &&& forall|id: usize|
            #[trigger] self.provider.objects().contains_key((self.name@, id)) <==> 0 <= id
                < self.shards@.len()
        &&& forall|i: int| 0 <= i < self.shards@.len() ==> (#[trigger] self.shards@[i]).live
        &&& spec_rebuild(
            self.provider.objects(),
            self.name@,
            Seq::new(self.shards@.len(), |i: int| i as usize),
        ) == Some((self.index.entries_map(), self.index.metadata_map()))
    }

    /// Whether the index is exactly what rebuilding from the bucket's
    /// current objects yields, merging shards in ascending id order.
    pub closed spec fn rebuilt(&self) -> bool {
        exists|ids: Seq<usize>|
            {
                &&& #[trigger] crate::index::spec_ids_ok(self.provider.objects(), self.name@, ids)
                &&& spec_rebuild(self.provider.objects(), self.name@, ids) == Some(
                    (self.index.entries_map(), self.index.metadata_map()),
                )
            }
    }

    /// A fresh bucket: empty index, no shards.
    pub fn new(name: String, provider: P, config: BucketConfig) -> (r: Self)
        requires
            config.parallelism >= 1,
        ensures
            r.wf(),
            r.contents() == Map::<Seq<char>, Seq<Seq<u8>>>::empty(),
            r.entries_map() == Map::<Seq<char>, Seq<SpecEntry>>::empty(),
            r.metadata_map() == Map::<Seq<char>, Seq<u8>>::empty(),
            r.spec_name() == name@,
            r.spec_config() == config,
            r.spec_shard_count() == 0,
            r.objects() == provider.objects(),
            (forall|id: usize| !provider.objects().contains_key((name@, id))) ==> r.synced(),
    {
        let r = Bucket {
            name,
            provider,
            index: BucketIndex::new(),
            shards: Vec::new(),
            config,
            chunks: Ghost(Map::empty()),
        };
        proof {
            assert(r.chunks@.dom() =~= r.index.entries_map().dom());
            if forall|id: usize| !r.provider.objects().contains_key((r.name@, id)) {
                assert(Seq::new(r.shards@.len(), |i: int| i as usize) =~= Seq::<usize>::empty());
            }
        }
        r
    }

    /// The bucket's name.
    pub fn name(&self) -> (r: &String)
        ensures
            r@ == self.spec_name(),
    {
        &self.name
    }

    /// The bucket's configuration.
    pub fn config(&self) -> (r: &BucketConfig)
        ensures
            *r == self.spec_config(),
    {
        &self.config
    }

    /// The bucket's index.
    pub fn index(&self) -> (r: &BucketIndex)
        ensures
            r.entries_map() == self.entries_map(),
            r.metadata_map() == self.metadata_map(),
    {
        &self.index
    }

    /// How many shards the bucket has allocated.
    pub fn shard_count(&self) -> (r: usize)
        ensures
            r == self.spec_shard_count(),
    {
        self.shards.len()
    }

    /// The backend the bucket runs over.
    pub fn provider(&self) -> (r: &P)
        ensures
            r.objects() == self.objects(),
    {
        &self.provider
    }

    /// Direct mutable access to the backend, for maintenance outside the
    /// bucket's protocol. Writes made through it are not tracked by the
    /// index: they can invalidate the bucket's well-formedness, after which
    /// reads still never return data that fails checksum verification.
    pub fn provider_mut(&mut self) -> (r: &mut P)
        ensures
            r.objects() == old(self).objects(),
            final(self).objects() == final(r).objects(),
            final(self).contents() == old(self).contents(),
            final(self).entries_map() == old(self).entries_map(),
            final(self).metadata_map() == old(self).metadata_map(),
            final(self).spec_name() == old(self).spec_name(),
            final(self).spec_config() == old(self).spec_config(),
            final(self).spec_shard_count() == old(self).spec_shard_count(),
    {
        &mut self.provider
    }

    /// Dissolves the bucket and hands its backend back.
    pub fn into_provider(self) -> (r: P)
        ensures
            r.objects() == self.objects(),
    {
        self.provider
    }

    /// Writes a blob under a key.
    ///
    /// The blob's checksum is computed over the original bytes, the blob is
    /// encoded under the bucket's compression algorithm, framed together
    /// with the key, the metadata and the checksum, and appended to the
    /// active shard — rolling to a freshly allocated shard when the frame
    /// does not fit the active shard's remaining capacity. Only after the
    /// backend write succeeds is the placement recorded in the index and
    /// the metadata, when supplied, overwritten: last write wins. On any
    /// error the bucket is unchanged; in particular an unsupported
    /// algorithm or an oversized record creates no shard object.
    #[verifier::rlimit(60)]
    pub fn write(&mut self, key: &str, data: &Vec<u8>, metadata: Option<Vec<u8>>) -> (r: Result<
        (),
        Error,
    >)
        requires
            old(self).wf(),
        ensures
            final(self).wf(),
            final(self).spec_name() == old(self).spec_name(),
            final(self).spec_config() == old(self).spec_config(),
            r is Ok ==> ({
                let oldc = if old(self).contents().contains_key(key@) {
                    old(self).contents()[key@]
                } else {
                    Seq::empty()
                };
                let olde = if old(self).entries_map().contains_key(key@) {
                    old(self).entries_map()[key@]
                } else {
                    Seq::empty()
                };
                &&& final(self).contents() == old(self).contents().insert(
                    key@,
                    oldc.push(data@),
                )
                &&& final(self).metadata_map() == (match metadata {
                    Some(m) => old(self).metadata_map().insert(key@, m@),
                    None => old(self).metadata_map(),
                })
                &&& final(self).entries_map() == old(self).entries_map().insert(
                    key@,
                    olde.push(final(self).entries_map()[key@].last()),
                )
                &&& final(self).entries_map()[key@].len() == olde.len() + 1
                &&& final(self).entries_map()[key@].last().checksum == digest_of(data@)
                &&& old(self).spec_shard_count() <= final(self).spec_shard_count() <= old(
                    self,
                ).spec_shard_count() + 1
                &&& (old(self).synced() ==> final(self).synced())
                &&& ({
                    let e_new = final(self).entries_map()[key@].last();
                    let frame_size = 57 + encode_utf8(key@).len() + e_new.size + (match metadata {
                        Some(m) => m@.len() as int,
                        None => 0,
                    });
                    let n0 = old(self).spec_shard_count();
                    &&& frame_size <= old(self).max_shard_size()
                    &&& (old(self).compression() == CompressionType::NoCompression ==> e_new.size
                        == data@.len())
                    &&& (if n0 > 0 && old(self).spec_shard_live(n0 - 1) && old(
                        self,
                    ).spec_shard_size(n0 - 1) + frame_size <= old(self).max_shard_size() {
                        &&& e_new.shard_id == n0 - 1
                        &&& e_new.offset == old(self).spec_shard_size(n0 - 1)
                        &&& final(self).spec_shard_count() == n0
                    } else {
                        &&& e_new.shard_id == n0
                        &&& e_new.offset == 0
                        &&& final(self).spec_shard_count() == n0 + 1
                    })
                    &&& final(self).spec_shard_size(e_new.shard_id) == e_new.offset + frame_size
                    &&& final(self).spec_shard_live(e_new.shard_id)
                    &&& forall|i: int|
                        0 <= i < n0 && i != e_new.shard_id ==> final(self).spec_shard_size(i)
                            == old(self).spec_shard_size(i) && final(self).spec_shard_live(i)
                            == old(self).spec_shard_live(i)
                })
            }),
            r matches Err(e) ==> ({
                &&& final(self).contents() == old(self).contents()
                &&& final(self).metadata_map() == old(self).metadata_map()
                &&& final(self).entries_map() == old(self).entries_map()
                &&& final(self).spec_shard_count() == old(self).spec_shard_count()
                &&& final(self).objects() == old(self).objects()
                &&& (old(self).synced() ==> final(self).synced())
                &&& (e matches Error::Io(_) || e == Error::ShardCapacityExceeded || e
                    == Error::UnsupportedCompression)
            }),
            !supported(old(self).compression()) ==> (r matches Err(e) && e
                == Error::UnsupportedCompression),
            supported(old(self).compression()) ==> !(r matches Err(e) && e
                == Error::UnsupportedCompression),
            old(self).compression() == CompressionType::NoCompression ==> ({
                let rec_size = 57 + encode_utf8(key@).len() + data@.len() + (match metadata {
                    Some(m) => m@.len() as int,
                    None => 0,
                });
                &&& ((r matches Err(e) && e == Error::ShardCapacityExceeded) <==> rec_size > old(
                    self,
                ).max_shard_size())
                &&& (rec_size <= old(self).max_shard_size() ==> (r is Ok || (r matches Err(e)
                    && e matches Error::Io(_))))
            }),
    {
        let checksum = compute_checksum(data.as_slice());
        let enc = match encode_data(self.config.compression, data.as_slice()) {
            Ok(v) => v,
            Err(e) => {
                return Err(e);
            },
        };
        let key_byte_len = key.as_bytes().len();
        let enc_len = enc.len();
        let meta_slice: Option<&[u8]> = match &metadata {
            Some(m) => Some(m.as_slice()),
            None => None,
        };
        let meta_byte_len: usize = match &metadata {
            Some(m) => m.len(),
            None => 0,
        };
        let frame = encode_record(key, enc.as_slice(), meta_slice, &checksum);
        let ghost metav: Option<Seq<u8>> = match &metadata {
            Some(m) => Some(m@),
            None => None,
        };
        let ghost rec = SpecRecord { key: key@, data: enc@, meta: metav, checksum: checksum@ };
        proof {
            assert(encode_utf8(key@).len() == key_byte_len && rec.data.len() == enc_len
                && crate::codec::spec_meta_len(rec.meta) <= meta_byte_len);
            crate::codec::lemma_parse_encode(rec, Seq::empty());
            assert(frame@ == spec_encode_record(rec));
        }
        if frame.len() > self.config.max_shard_size {
            return Err(Error::ShardCapacityExceeded);
        }
        let ghost framev = frame@;
        let n = self.shards.len();
        let mut sid: usize = n;
        let mut offset: usize = 0;
        let mut is_new: bool = true;
        if n > 0 {
            let last = &self.shards[n - 1];
            if last.live && last.size <= self.config.max_shard_size - frame.len() {
                sid = n - 1;
                offset = last.size;
                is_new = false;
            }
        }
        let ghost mirror0: Seq<u8> = if is_new {
            Seq::empty()
        } else {
            self.shards@[sid as int].data@
        };
        let obj: Vec<u8> = if is_new {
            frame
        } else {
            let mut o = slice_to_vec(self.shards[sid].data.as_slice());
            o.extend_from_slice(frame.as_slice());
            o
        };
        let ghost objv = obj@;
        proof {
            assert(objv =~= mirror0 + framev);
        }
        match self.provider.write(self.name.as_str(), sid, obj.as_slice()) {
            Err(e) => {
                return Err(e);
            },
            Ok(()) => {},
        }
        let obj_len = obj.len();
        if is_new {
            self.shards.push(Shard { id: sid, size: obj_len, data: obj, live: true });
        } else {
            let sh = vstd::std_specs::vec::vec_index_mut(&mut self.shards, sid);
            sh.size = obj_len;
            sh.data = obj;
        }
        let entry = IndexEntry::new(sid, offset, enc.len(), checksum);
        self.index.push_entry(key, entry);
        match metadata {
            Some(m) => self.index.set_metadata(key, m),
            None => {},
        }
        let ghost oldc: Seq<Seq<u8>> = if old(self).contents().contains_key(key@) {
            old(self).contents()[key@]
        } else {
            Seq::empty()
        };
        let ghost olde: Seq<SpecEntry> = if old(self).entries_map().contains_key(key@) {
            old(self).entries_map()[key@]
        } else {
            Seq::empty()
        };
        self.chunks = Ghost(self.chunks@.insert(key@, oldc.push(data@)));
        proof {
            let name = self.name@;
            let c = self.config.compression;
            let objects0 = old(self).provider.objects();
            let objects1 = self.provider.objects();
            let old_shards = old(self).shards@;
            let e_new = entry@;

            // The freshly framed record parses at its offset in the new object.
            assert(framev + Seq::<u8>::empty() =~= framev);
            assert(objv.skip(offset as int) =~= framev);
            assert(spec_entry_resolves(objects1, name, c, e_new, data@));

            // Shard bookkeeping holds for every shard.
            assert forall|i: int| 0 <= i < self.shards@.len() implies {
                let sh = #[trigger] self.shards@[i];
                &&& sh.id == i
                &&& sh.size == sh.data@.len()
                &&& sh.size <= self.config.max_shard_size
                &&& (sh.live ==> objects1.contains_key((name, i as usize)) && objects1[(
                name,
                i as usize,
                )] == sh.data@)
            } by {
                if i != sid as int {
                    assert(self.shards@[i] == old_shards[i]);
                    assert((name, i as usize) != (name, sid));
                }
            }

            // Every old entry still resolves; the new entry resolves too.
            let em0 = old(self).index.entries_map();
            let em1 = self.index.entries_map();
            let cm0 = old(self).chunks@;
            let cm1 = self.chunks@;
            assert(em1 == em0.insert(key@, olde.push(e_new)));
            assert(cm1 == cm0.insert(key@, oldc.push(data@)));
            assert(cm1.dom() =~= em1.dom());
            assert forall|k: Seq<char>| #[trigger] em1.contains_key(k) implies {
                let es = em1[k];
                let cs = cm1[k];
                &&& cs.len() == es.len()
                &&& forall|j: int| 0 <= j < es.len() ==> self.entry_ok(#[trigger] es[j], cs[j])
            } by {
                let es = em1[k];
                let cs = cm1[k];
                assert forall|j: int| 0 <= j < es.len() implies self.entry_ok(
                    #[trigger] es[j],
                    cs[j],
                ) by {
                    if k == key@ && j == es.len() - 1 {
                        assert(es[j] == e_new && cs[j] == data@);
                    } else {
                        let oes = em0[k];
                        let ocs = cm0[k];
                        assert(em0.contains_key(k) && es[j] == oes[j] && cs[j] == ocs[j]);
                        assert(old(self).entry_ok(oes[j], ocs[j]));
                        if oes[j].shard_id == sid as int {
                            assert(old_shards[sid as int].live);
                            assert(mirror0 == objects0[(name, sid)]);
                            assert(objv == objects0[(name, sid)] + framev);
                        }
                        crate::shard::lemma_resolves_after_update(
                            objects0,
                            name,
                            c,
                            sid,
                            objv,
                            oes[j],
                            ocs[j],
                        );
                        assert(0 <= oes[j].shard_id < self.shards@.len());
                        assert(self.shards@[oes[j].shard_id].live);
                    }
                }
            }

            // A write keeps the index exactly the rebuild of the shards.
            if old(self).synced() {
                lemma_write_preserves_synced(
                    old(self),
                    self,
                    key@,
                    rec,
                    sid,
                    offset as int,
                    mirror0,
                    oldc,
                    olde,
                    e_new,
                    metav,
                );
            }
        }
        Ok(())
    }

    /// Reads a key's blob back.
    ///
    /// Each of the key's entries is fetched in write order, decoded under
    /// the bucket's compression algorithm and verified against its recorded
    /// checksum; the decoded chunks are concatenated. An absent key fails
    /// with `KeyNotFound`, and that is the only input rejected: on a
    /// well-formed bucket a present key always reads back, unless the
    /// backend itself fails.
    pub fn read(&self, key: &str) -> (r: Result<Vec<u8>, Error>)
        requires
            self.wf(),
        ensures
            r matches Ok(v) ==> self.contents().contains_key(key@) && v@ == spec_concat(
                self.contents()[key@],
            ),
            (r matches Err(e) && e == Error::KeyNotFound) <==> !self.contents().contains_key(key@),
            self.contents().contains_key(key@) ==> ((r matches Ok(v) && v@ == spec_concat(
                self.contents()[key@],
            )) || (r matches Err(e) && e matches Error::Io(_))),
    {
        let entries = match self.index.get_entries(key) {
            Some(v) => v,
            None => {
                return Err(Error::KeyNotFound);
            },
        };
        let ghost es = self.entries_map()[key@];
        let ghost cs = self.contents()[key@];
        let mut out: Vec<u8> = Vec::new();
        let mut j: usize = 0;
        proof {
            assert(cs.take(0) =~= Seq::<Seq<u8>>::empty());
        }
        while j < entries.len()
            invariant
                self.wf(),
                j <= entries@.len(),
                crate::index::deep_seq(entries@) == es,
                self.entries_map().contains_key(key@),
                self.contents().contains_key(key@),
                es == self.entries_map()[key@],
                cs == self.contents()[key@],
                cs.len() == es.len(),
                out@ == spec_concat(cs.take(j as int)),
            decreases entries@.len() - j,
        {
            let e = &entries[j];
            proof {
                assert(es[j as int] == entries@[j as int]@);
                assert(self.entry_ok(es[j as int], cs[j as int]));
            }
            let chunk = match read_entry_from(
                &self.provider,
                self.name.as_str(),
                e,
                self.config.compression,
            ) {
                Ok(c) => c,
                Err(err) => {
                    return Err(err);
                },
            };
            proof {
                assert(chunk@ == cs[j as int]);
            }
            out.extend_from_slice(chunk.as_slice());
            proof {
                assert(cs.take(j + 1).drop_last() =~= cs.take(j as int));
                assert(cs.take(j + 1).last() == cs[j as int]);
            }
            j += 1;
        }
        proof {
            assert(cs.take(cs.len() as int) =~= cs);
        }
        Ok(out)
    }

    /// Deletes a key.
    ///
    /// The key's entries and metadata leave the index whether or not the
    /// key was present; deleting an absent key succeeds without touching
    /// the backend. A shard object wholly owned by the key — one that some
    /// removed entry references and no remaining entry of any key
    /// references — is deleted from the backend, and on success every such
    /// object is gone; no other object is created, changed or removed,
    /// since physical reclamation of shards shared with live keys is out of
    /// scope. The index removals hold even when a backend delete fails
    /// midway; at most the reclaimable objects removed so far have left.
    #[verifier::rlimit(60)]
    pub fn delete(&mut self, key: &str) -> (r: Result<(), Error>)
        requires
            old(self).wf(),
        ensures
            final(self).wf(),
            final(self).spec_name() == old(self).spec_name(),
            final(self).spec_config() == old(self).spec_config(),
            final(self).contents() == old(self).contents().remove(key@),
            final(self).entries_map() == old(self).entries_map().remove(key@),
            final(self).metadata_map() == old(self).metadata_map().remove(key@),
            final(self).spec_shard_count() == old(self).spec_shard_count(),
            r matches Err(e) ==> e matches Error::Io(_),
            !old(self).entries_map().contains_key(key@) ==> r is Ok && final(self).objects()
                == old(self).objects(),
            forall|a: (Seq<char>, usize)|
                #![trigger final(self).objects().contains_key(a)]
                final(self).objects().contains_key(a) ==> old(self).objects().contains_key(a)
                    && final(self).objects()[a] == old(self).objects()[a],
            forall|a: (Seq<char>, usize)|
                #![trigger final(self).objects().contains_key(a)]
                old(self).objects().contains_key(a) && !final(self).objects().contains_key(a)
                    ==> {
                    &&& old(self).entries_map().contains_key(key@)
                    &&& a.0 == old(self).spec_name()
                    &&& exists|i: int|
                        0 <= i < old(self).entries_map()[key@].len() && (#[trigger] old(
                            self,
                        ).entries_map()[key@][i]).shard_id == a.1 as int
                    &&& !spec_shard_referenced(old(self).entries_map().remove(key@), a.1 as int)
                },
            r is Ok ==> forall|a: (Seq<char>, usize)|
                #![trigger final(self).objects().contains_key(a)]
                {
                    &&& old(self).objects().contains_key(a)
                    &&& old(self).entries_map().contains_key(key@)
                    &&& a.0 == old(self).spec_name()
                    &&& exists|i: int|
                        0 <= i < old(self).entries_map()[key@].len() && (#[trigger] old(
                            self,
                        ).entries_map()[key@][i]).shard_id == a.1 as int
                    &&& !spec_shard_referenced(old(self).entries_map().remove(key@), a.1 as int)
                } ==> !final(self).objects().contains_key(a),
    {
        let removed = self.index.remove_entries(key);
        self.index.remove_metadata(key);
        self.chunks = Ghost(self.chunks@.remove(key@));
        proof {
            assert(self.chunks@.dom() =~= self.index.entries_map().dom());
        }
        let entries = match removed {
            None => {
                return Ok(());
            },
            Some(v) => v,
        };
        proof {
            assert(old(self).entries_map().contains_key(key@));
        }
        let ghost olde = old(self).entries_map()[key@];
        proof {
            assert forall|i: int| 0 <= i < entries@.len() implies {
                &&& 0 <= (#[trigger] entries@[i])@.shard_id < self.shards@.len()
                &&& olde[i] == entries@[i]@
                &&& self.shards@[entries@[i]@.shard_id].live
                &&& self.provider.objects().contains_key((self.name@, entries@[i].shard_id))
            } by {
                assert(crate::index::deep_seq(entries@)[i] == entries@[i]@);
                assert(old(self).entry_ok(
                    crate::index::deep_seq(entries@)[i],
                    old(self).contents()[key@][i],
                ));
            }
        }
        let mut j: usize = 0;
        while j < entries.len()
            invariant
                self.wf(),
                j <= entries@.len(),
                old(self).entries_map().contains_key(key@),
                olde == old(self).entries_map()[key@],
                olde.len() == entries@.len(),
                forall|i: int|
                    0 <= i < entries@.len() ==> {
                        &&& 0 <= (#[trigger] entries@[i])@.shard_id < self.shards@.len()
                        &&& olde[i] == entries@[i]@
                    },
                self.index.entries_map() == old(self).entries_map().remove(key@),
                self.index.metadata_map() == old(self).metadata_map().remove(key@),
                self.chunks@ == old(self).contents().remove(key@),
                self.name@ == old(self).name@,
                self.config == old(self).config,
                self.shards@.len() == old(self).shards@.len(),
                forall|a: (Seq<char>, usize)|
                    #[trigger] self.provider.objects().contains_key(a) ==> old(
                        self,
                    ).provider.objects().contains_key(a) && self.provider.objects()[a] == old(
                        self,
                    ).provider.objects()[a],
                forall|a: (Seq<char>, usize)|
                    old(self).provider.objects().contains_key(a) && !(
                    #[trigger] self.provider.objects().contains_key(a)) ==> {
                        &&& a.0 == self.name@
                        &&& exists|i: int|
                            0 <= i < old(self).entries_map()[key@].len() && (#[trigger] old(
                                self,
                            ).entries_map()[key@][i]).shard_id == a.1 as int
                        &&& !spec_shard_referenced(self.index.entries_map(), a.1 as int)
                    },
                forall|i: int|
                    0 <= i < j && !spec_shard_referenced(
                        self.index.entries_map(),
                        (#[trigger] entries@[i])@.shard_id,
                    ) ==> !self.provider.objects().contains_key(
                        (self.name@, entries@[i].shard_id),
                    ),
                forall|i: int|
                    0 <= i < entries@.len() ==> ((#[trigger] self.shards@[entries@[i]@.shard_id].live)
                        <==> self.provider.objects().contains_key(
                        (self.name@, entries@[i].shard_id),
                    )),
            decreases entries@.len() - j,
        {
            let sid = entries[j].shard_id;
            if self.shards[sid].live {
                if !self.index.shard_referenced(sid) {
                    match self.provider.delete(self.name.as_str(), sid) {
                        Ok(()) => {
                            let sh = vstd::std_specs::vec::vec_index_mut(&mut self.shards, sid);
                            sh.live = false;
                            proof {
                                let name = self.name@;
                                assert forall|k: Seq<char>|
                                    #[trigger] self.index.entries_map().contains_key(k) implies {
                                    let es = self.index.entries_map()[k];
                                    let cs = self.chunks@[k];
                                    &&& cs.len() == es.len()
                                    &&& forall|i: int|
                                        0 <= i < es.len() ==> self.entry_ok(
                                            #[trigger] es[i],
                                            cs[i],
                                        )
                                } by {
                                    let es = self.index.entries_map()[k];
                                    let cs = self.chunks@[k];
                                    assert forall|i: int| 0 <= i < es.len() implies self.entry_ok(
                                        #[trigger] es[i],
                                        cs[i],
                                    ) by {
                                        assert(es[i].shard_id != sid as int);
                                        assert((name, es[i].shard_id as usize) != (
                                        name,
                                        sid,
                                        ));
                                    }
                                }
                                assert(entries@[j as int]@.shard_id == sid as int);
                                assert(old(self).entries_map()[key@][j as int].shard_id
                                    == sid as int);
                            }
                        },
                        Err(e) => {
                            return Err(e);
                        },
                    }
                }
            }
            j += 1;
        }
        proof {
            let em1 = old(self).entries_map().remove(key@);
            assert forall|a: (Seq<char>, usize)|
                {
                    &&& old(self).provider.objects().contains_key(a)
                    &&& a.0 == old(self).spec_name()
                    &&& exists|i: int|
                        0 <= i < old(self).entries_map()[key@].len() && (#[trigger] old(
                            self,
                        ).entries_map()[key@][i]).shard_id == a.1 as int
                    &&& !spec_shard_referenced(em1, a.1 as int)
                } implies !(#[trigger] self.provider.objects().contains_key(a)) by {
                let i = choose|i: int|
                    0 <= i < old(self).entries_map()[key@].len() && (#[trigger] old(
                        self,
                    ).entries_map()[key@][i]).shard_id == a.1 as int;
                assert(olde[i].shard_id == a.1 as int);
                assert(entries@[i]@.shard_id == a.1 as int);
                assert(entries@[i].shard_id == a.1);
                assert(!self.provider.objects().contains_key((self.name@, entries@[i].shard_id)));
            }
        }
        Ok(())
    }

    /// Rebuilds a bucket from its persisted shards: startup recovery, for
    /// when no prior index exists or the in-memory index is untrusted.
    ///
    /// Every shard object under the bucket is fetched, parsed, decoded and
    /// checksum-verified, in ascending shard-id order, and the discovered
    /// records are merged into a fresh index. A shard that cannot be parsed,
    /// a record that cannot be decoded or fails verification, or a shard
    /// object larger than the configured capacity aborts the whole recovery
    /// with an `Index` error: a reconstructed index is complete or
    /// explicitly failed, never silently partial.
    #[verifier::rlimit(100)]
    pub fn recover(name: String, provider: P, config: BucketConfig) -> (r: Result<Self, Error>)
        requires
            config.parallelism >= 1,
        ensures
            r matches Ok(b) ==> {
                &&& b.wf()
                &&& b.rebuilt()
                &&& b.spec_name() == name@
                &&& b.spec_config() == config
                &&& b.objects() == provider.objects()
            },
            r matches Err(e) ==> (e matches Error::Io(_) || e matches Error::Index(_)),
            r matches Err(Error::Index(_)) ==> exists|id: usize|
                #[trigger] provider.objects().contains_key((name@, id)) && {
                    let obj = provider.objects()[(name@, id)];
                    ||| obj.len() > config.max_shard_size
                    ||| spec_parse_shard(obj) is None
                    ||| (spec_parse_shard(obj) matches Some(ros) && exists|i: int|
                        0 <= i < ros.len() && !crate::shard::spec_record_sound(
                            config.compression,
                            (#[trigger] ros[i]).0,
                        ))
                },
    {
        let listed = match provider.list(name.as_str()) {
            Ok(v) => v,
            Err(e) => {
                return Err(e);
            },
        };
        let ghost namev = name@;
        let ghost objects0 = provider.objects();
        let mut b = Bucket {
            name,
            provider,
            index: BucketIndex::new(),
            shards: Vec::new(),
            config,
            chunks: Ghost(Map::empty()),
        };
        let ghost mut done_ids: Seq<usize> = Seq::empty();
        proof {
            assert(b.chunks@.dom() =~= b.index.entries_map().dom());
        }
        if listed.len() == 0 {
            proof {
                assert forall|x: usize| #[trigger] objects0.contains_key(
                    (namev, x),
                ) implies done_ids.contains(x) by {
                    assert(listed@.contains(x));
                    let j = choose|j: int| 0 <= j < listed@.len() && listed@[j] == x;
                }
                assert(crate::index::spec_ids_ok(objects0, namev, done_ids));
                assert(spec_rebuild(objects0, namev, done_ids) == Some(
                    (b.index.entries_map(), b.index.metadata_map()),
                ));
            }
            return Ok(b);
        }
        let max = crate::index::ids_max(&listed);
        let mut id: usize = 0;
        loop
            invariant_except_break
                forall|x: usize| #[trigger] done_ids.contains(x) ==> x < id && listed@.contains(x),
                forall|x: usize| listed@.contains(x) && x < id ==> #[trigger] done_ids.contains(x),
                b.shards@.len() == id,
            invariant
                id <= max,
                b.wf(),
                namev == name@,
                objects0 == provider.objects(),
                b.name@ == namev,
                b.config == config,
                b.provider.objects() == objects0,
                spec_rebuild(objects0, namev, done_ids) == Some(
                    (b.index.entries_map(), b.index.metadata_map()),
                ),
                forall|a: int, b2: int| 0 <= a < b2 < done_ids.len() ==> done_ids[a] < done_ids[b2],
                forall|x: usize| #[trigger] listed@.contains(x) ==> objects0.contains_key(
                    (namev, x),
                ),
                forall|x: usize| #[trigger] objects0.contains_key((namev, x)) ==> listed@.contains(
                    x,
                ),
                forall|x: usize| #[trigger] listed@.contains(x) ==> x <= max,
            ensures
                b.wf(),
                b.name@ == namev,
                b.config == config,
                b.provider.objects() == objects0,
                spec_rebuild(objects0, namev, done_ids) == Some(
                    (b.index.entries_map(), b.index.metadata_map()),
                ),
                crate::index::spec_ids_ok(objects0, namev, done_ids),
            decreases max - id,
        {
            if crate::index::ids_contain(&listed, id) {
                let bytes = match b.provider.read(b.name.as_str(), id) {
                    Ok(v) => v,
                    Err(e) => {
                        return Err(e);
                    },
                };
                if bytes.len() > b.config.max_shard_size {
                    proof {
                        assert(objects0.contains_key((namev, id)) && objects0[(namev, id)].len()
                            > config.max_shard_size);
                    }
                    return Err(
                        Error::Index(
                            String::from_str("a shard object exceeds the configured capacity"),
                        ),
                    );
                }
                let parsed = match crate::codec::parse_shard(bytes.as_slice()) {
                    Some(v) => v,
                    None => {
                        proof {
                            assert(objects0.contains_key((namev, id)) && spec_parse_shard(
                                objects0[(namev, id)],
                            ) is None);
                        }
                        return Err(
                            Error::Index(String::from_str("a shard object could not be parsed")),
                        );
                    },
                };
                let ghost bytesv = bytes@;
                let sz = bytes.len();
                b.shards.push(Shard { id, size: sz, data: bytes, live: true });
                let ghost em0 = b.index.entries_map();
                let ghost mm0 = b.index.metadata_map();
                let ghost ros = spec_parse_shard(objects0[(namev, id)])->Some_0;
                proof {
                    assert(ros.take(0) =~= Seq::<(SpecRecord, int)>::empty());
                    crate::codec::lemma_parse_shard_from_addressable(bytesv, 0);
                    assert forall|k: Seq<char>| #[trigger] b.index.entries_map().contains_key(
                        k,
                    ) implies {
                        let es = b.index.entries_map()[k];
                        let cs = b.chunks@[k];
                        &&& cs.len() == es.len()
                        &&& forall|i2: int| 0 <= i2 < es.len() ==> b.entry_ok(#[trigger] es[i2], cs[i2])
                    } by {
                        let es = b.index.entries_map()[k];
                        let cs = b.chunks@[k];
                        assert forall|i2: int| 0 <= i2 < es.len() implies b.entry_ok(
                            #[trigger] es[i2],
                            cs[i2],
                        ) by {
                            assert(es[i2].shard_id < b.shards@.len() - 1);
                        }
                    }
                }
                let mut j: usize = 0;
                while j < parsed.len()
                    invariant
                        j <= parsed@.len(),
                        namev == name@,
                        objects0 == provider.objects(),
                        parsed@.len() == ros.len(),
                        forall|i2: int|
                            0 <= i2 < parsed@.len() ==> #[trigger] ros[i2] == (
                            parsed@[i2].0@,
                            parsed@[i2].1 as int,
                            ),
                        b.wf(),
                        b.name@ == namev,
                        b.config == config,
                        b.provider.objects() == objects0,
                        b.shards@.len() == id + 1,
                        spec_merge_records(em0, mm0, id, ros.take(j as int)) == (
                        b.index.entries_map(),
                        b.index.metadata_map(),
                        ),
                        objects0.contains_key((namev, id)),
                        objects0[(namev, id)] == bytesv,
                        spec_parse_shard(bytesv) == Some(ros),
                        b.shards@[id as int].live,
                    decreases parsed@.len() - j,
                {
                    let rec = &parsed[j].0;
                    let off = parsed[j].1;
                    let ghost e_new = spec_entry_of(id, ros[j as int].1, ros[j as int].0);
                    let decoded = match crate::compress::decode_data(
                        b.config.compression,
                        rec.data.as_slice(),
                    ) {
                        Ok(v) => v,
                        Err(_) => {
                            proof {
                                assert(!crate::shard::spec_record_sound(
                                    config.compression,
                                    ros[j as int].0,
                                ));
                                assert(objects0.contains_key((namev, id)) && spec_parse_shard(
                                    objects0[(namev, id)],
                                ) == Some(ros));
                                assert(provider.objects().contains_key((name@, id)));
                                assert(!crate::shard::spec_record_sound(
                                    config.compression,
                                    spec_parse_shard(
                                        provider.objects()[(name@, id)],
                                    )->Some_0[j as int].0,
                                ));
                            }
                            return Err(
                                Error::Index(String::from_str("a record could not be decoded")),
                            );
                        },
                    };
                    match crate::checksum::verify_checksum(decoded.as_slice(), &rec.checksum) {
                        Ok(()) => {},
                        Err(_) => {
                            proof {
                                assert(crate::compress::decode_of(
                                    config.compression,
                                    ros[j as int].0.data,
                                ) == Some(decoded@));
                                assert(digest_of(decoded@) != ros[j as int].0.checksum);
                                assert(!crate::shard::spec_record_sound(
                                    config.compression,
                                    ros[j as int].0,
                                ));
                                assert(0 <= j < ros.len());
                                assert(objects0.contains_key((namev, id)) && spec_parse_shard(
                                    objects0[(namev, id)],
                                ) == Some(ros));
                                assert(provider.objects().contains_key((name@, id)));
                                assert(spec_parse_shard(provider.objects()[(name@, id)]) == Some(
                                    ros,
                                ));
                                assert(!crate::shard::spec_record_sound(
                                    config.compression,
                                    spec_parse_shard(
                                        provider.objects()[(name@, id)],
                                    )->Some_0[j as int].0,
                                ));
                            }
                            return Err(
                                Error::Index(
                                    String::from_str("a record failed checksum verification"),
                                ),
                            );
                        },
                    }
                    let ghost pre_em = b.index.entries_map();
                    let ghost pre_cm = b.chunks@;
                    b.index.merge_record(id, rec, off);
                    let ghost prevc: Seq<Seq<u8>> = if pre_cm.contains_key(rec.key@) {
                        pre_cm[rec.key@]
                    } else {
                        Seq::empty()
                    };
                    b.chunks = Ghost(b.chunks@.insert(rec.key@, prevc.push(decoded@)));
                    proof {
                        assert(ros.take(j + 1) =~= ros.take(j as int).push(ros[j as int]));
                        lemma_merge_records_push(em0, mm0, id, ros.take(j as int), ros[j as int]);
                        assert(b.chunks@.dom() =~= b.index.entries_map().dom());
                        crate::codec::lemma_parse_shard_from_addressable(bytesv, 0);
                        assert(spec_parse_shard(bytesv)->Some_0[j as int] == ros[j as int]);
                        assert(spec_entry_resolves(
                            objects0,
                            namev,
                            b.config.compression,
                            e_new,
                            decoded@,
                        ));
                        assert forall|k: Seq<char>| #[trigger] b.index.entries_map().contains_key(
                            k,
                        ) implies {
                            let es = b.index.entries_map()[k];
                            let cs = b.chunks@[k];
                            &&& cs.len() == es.len()
                            &&& forall|i2: int|
                                0 <= i2 < es.len() ==> b.entry_ok(#[trigger] es[i2], cs[i2])
                        } by {
                            let es = b.index.entries_map()[k];
                            let cs = b.chunks@[k];
                            assert forall|i2: int| 0 <= i2 < es.len() implies b.entry_ok(
                                #[trigger] es[i2],
                                cs[i2],
                            ) by {
                                if k == rec.key@ && i2 == es.len() - 1 {
                                    assert(es[i2] == e_new && cs[i2] == decoded@);
                                } else {
                                    assert(pre_em.contains_key(k) && es[i2] == pre_em[k][i2]
                                        && cs[i2] == pre_cm[k][i2]);
                                }
                            }
                        }
                    }
                    j += 1;
                }
                proof {
                    assert(ros.take(ros.len() as int) =~= ros);
                    lemma_merge_shards_push(
                        Map::<Seq<char>, Seq<SpecEntry>>::empty(),
                        Map::<Seq<char>, Seq<u8>>::empty(),
                        objects0,
                        namev,
                        done_ids,
                        id,
                    );
                    let ghost old_done = done_ids;
                    done_ids = done_ids.push(id);
                    assert(done_ids[done_ids.len() - 1] == id);
                    assert forall|a: int, b2: int| 0 <= a < b2 < done_ids.len() implies done_ids[a]
                        < done_ids[b2] by {
                        if b2 == done_ids.len() - 1 {
                            assert(old_done.contains(old_done[a]));
                        }
                    }
                    assert forall|x: usize| #[trigger] done_ids.contains(x) implies x <= id
                        && listed@.contains(x) by {
                        let j2 = choose|j2: int| 0 <= j2 < done_ids.len() && done_ids[j2] == x;
                        if j2 < done_ids.len() - 1 {
                            assert(old_done[j2] == x);
                            assert(old_done.contains(x));
                        }
                    }
                    assert forall|x: usize| listed@.contains(x) && x <= id implies
                        done_ids.contains(x) by {
                        if x < id {
                            assert(old_done.contains(x));
                            let j2 = choose|j2: int| 0 <= j2 < old_done.len() && old_done[j2] == x;
                            assert(done_ids[j2] == x);
                        } else {
                            assert(done_ids[done_ids.len() - 1] == x);
                        }
                    }
                }
            } else {
                b.shards.push(Shard { id, size: 0, data: Vec::new(), live: false });
            }
            if id == max {
                proof {
                    assert forall|x: usize| #[trigger] objects0.contains_key(
                        (namev, x),
                    ) implies done_ids.contains(x) by {
                        assert(listed@.contains(x));
                        assert(x <= max);
                        if x < id {
                        } else {
                            assert(x == id);
                        }
                    }
                }
                break ;
            }
            id += 1;
        }
        proof {
            assert(crate::index::spec_ids_ok(objects0, namev, done_ids) && spec_rebuild(
                objects0,
                namev,
                done_ids,
            ) == Some((b.index.entries_map(), b.index.metadata_map())));
        }
        Ok(b)
    }

    /// The metadata of a key: a shared-access lookup with no side effects;
    /// a key without metadata yields `None`.
    pub fn get_metadata(&self, key: &str) -> (r: Result<Option<Vec<u8>>, Error>)
        ensures
            r matches Ok(m) ==> (match m {
                Some(v) => self.metadata_map().contains_key(key@) && v@ == self.metadata_map()[
                    key@],
                None => !self.metadata_map().contains_key(key@),
            }),
            r is Ok,
    {
        match self.index.get_metadata(key) {
            Some(v) => Ok(Some(slice_to_vec(v.as_slice()))),
            None => Ok(None),
        }
    }
}

/// Round trip: writing `d` under a key extends the key's content with `d`,
/// so what a subsequent read returns — the concatenation of the key's
/// chunks, by `read`'s contract — is the previously stored bytes followed
/// by `d`, and for a key not yet present exactly `d`. `write`'s contract is
/// the same for every supported compression algorithm, so this holds under
/// each of them.
pub proof fn lemma_round_trip(
    pre: Map<Seq<char>, Seq<Seq<u8>>>,
    post: Map<Seq<char>, Seq<Seq<u8>>>,
    k: Seq<char>,
    d: Seq<u8>,
)
    requires
        post == pre.insert(
            k,
            (if pre.contains_key(k) {
                pre[k]
            } else {
                Seq::empty()
            }).push(d),
        ),
    ensures
        spec_concat(post[k]) == spec_concat(
            if pre.contains_key(k) {
                pre[k]
            } else {
                Seq::<Seq<u8>>::empty()
            },
        ) + d,
        !pre.contains_key(k) ==> spec_concat(post[k]) == d,
{
    let base: Seq<Seq<u8>> = if pre.contains_key(k) {
        pre[k]
    } else {
        Seq::empty()
    };
    assert(post[k] == base.push(d));
    assert(base.push(d).drop_last() =~= base);
    assert(base.push(d).last() == d);
    if !pre.contains_key(k) {
        assert(Seq::<u8>::empty() + d =~= d);
    }
}

/// Capacity invariant: on a well-formed bucket no shard's size ever exceeds
/// the configured maximum shard size; writes whose cumulative size would
/// exceed it allocate new shards instead, as `write`'s shard-count clause
/// states.
pub proof fn lemma_capacity_invariant<P: StorageProvider>(b: &Bucket<P>, i: int)
    requires
        b.wf(),
        0 <= i < b.spec_shard_count(),
    ensures
        b.spec_shard_size(i) <= b.max_shard_size(),
{
}

/// Idempotent metadata overwrite: the metadata map reflects the most
/// recent write's metadata for a key, no matter how many prior writes set
/// different metadata.
pub proof fn lemma_metadata_last_write_wins(
    pre: Map<Seq<char>, Seq<u8>>,
    k: Seq<char>,
    m1: Seq<u8>,
    m2: Seq<u8>,
)
    ensures
        pre.insert(k, m1).insert(k, m2).contains_key(k),
        pre.insert(k, m1).insert(k, m2)[k] == m2,
{
}

/// Delete completeness: after a delete the key is in neither the contents
/// nor the metadata map, so by `read`'s contract a read fails with
/// `KeyNotFound` and by `get_metadata`'s contract the lookup yields
/// nothing.
pub proof fn lemma_delete_completeness(
    contents: Map<Seq<char>, Seq<Seq<u8>>>,
    metadata: Map<Seq<char>, Seq<u8>>,
    k: Seq<char>,
)
    ensures
        !contents.remove(k).contains_key(k),
        !metadata.remove(k).contains_key(k),
{
}

/// Two strictly ascending listings with the same members are the same.
proof fn lemma_sorted_unique(s1: Seq<usize>, s2: Seq<usize>)
    requires
        forall|a: int, b: int| 0 <= a < b < s1.len() ==> s1[a] < s1[b],
        forall|a: int, b: int| 0 <= a < b < s2.len() ==> s2[a] < s2[b],
        forall|x: usize| s1.contains(x) <==> s2.contains(x),
    ensures
        s1 == s2,
    decreases s1.len(),
{
    if s1.len() == 0 {
        if s2.len() > 0 {
            assert(s2.contains(s2[0]));
            assert(s1.contains(s2[0]));
        }
        assert(s1 =~= s2);
    } else if s2.len() == 0 {
        assert(s1.contains(s1[0]));
        assert(s2.contains(s1[0]));
        assert(s1 =~= s2);
    } else {
        assert(s1.contains(s1[0]));
        assert(s2.contains(s1[0]));
        let i2 = choose|i: int| 0 <= i < s2.len() && s2[i] == s1[0];
        assert(s2[0] <= s2[i2]);
        assert(s2.contains(s2[0]));
        assert(s1.contains(s2[0]));
        let i1 = choose|i: int| 0 <= i < s1.len() && s1[i] == s2[0];
        assert(s1[0] <= s1[i1]);
        assert(s1[0] == s2[0]);
        let t1 = s1.drop_first();
        let t2 = s2.drop_first();
        assert forall|x: usize| t1.contains(x) <==> t2.contains(x) by {
            if t1.contains(x) {
                let i = choose|i: int| 0 <= i < t1.len() && t1[i] == x;
                assert(s1[i + 1] == x);
                assert(x > s1[0]);
                assert(s1.contains(x));
                assert(s2.contains(x));
                let j = choose|j: int| 0 <= j < s2.len() && s2[j] == x;
                assert(j > 0);
                assert(t2[j - 1] == x);
                assert(t2.contains(x));
            }
            if t2.contains(x) {
                let i = choose|i: int| 0 <= i < t2.len() && t2[i] == x;
                assert(s2[i + 1] == x);
                assert(x > s2[0]);
                assert(s2.contains(x));
                assert(s1.contains(x));
                let j = choose|j: int| 0 <= j < s1.len() && s1[j] == x;
                assert(j > 0);
                assert(t1[j - 1] == x);
                assert(t1.contains(x));
            }
        }
        assert forall|a: int, b: int| 0 <= a < b < t1.len() implies t1[a] < t1[b] by {
            assert(s1[a + 1] < s1[b + 1]);
        }
        assert forall|a: int, b: int| 0 <= a < b < t2.len() implies t2[a] < t2[b] by {
            assert(s2[a + 1] < s2[b + 1]);
        }
        lemma_sorted_unique(t1, t2);
        assert(s1.len() == s2.len());
        assert forall|i: int| 0 <= i < s1.len() implies s1[i] == s2[i] by {
            if i > 0 {
                assert(t1[i - 1] == s1[i]);
                assert(t2[i - 1] == s2[i]);
            }
        }
        assert(s1 =~= s2);
    }
}

/// Two well-formed buckets with the same index, objects, name and
/// algorithm hold the same contents: every entry resolves to exactly one
/// chunk, since parsing and decoding are functions of the stored bytes.
proof fn lemma_contents_determined<P1: StorageProvider, P2: StorageProvider>(
    b1: &Bucket<P1>,
    b2: &Bucket<P2>,
)
    requires
        b1.wf(),
        b2.wf(),
        b1.entries_map() == b2.entries_map(),
        b1.objects() == b2.objects(),
        b1.spec_name() == b2.spec_name(),
        b1.compression() == b2.compression(),
    ensures
        b1.contents() == b2.contents(),
{
    assert(b1.chunks@.dom() =~= b2.chunks@.dom());
    assert forall|k: Seq<char>| #[trigger] b1.chunks@.contains_key(k) implies b1.chunks@[k]
        == b2.chunks@[k] by {
        let es = b1.index.entries_map()[k];
        assert(b1.index.entries_map().contains_key(k));
        assert(b2.index.entries_map().contains_key(k));
        let cs1 = b1.chunks@[k];
        let cs2 = b2.chunks@[k];
        assert forall|j: int| 0 <= j < cs1.len() implies cs1[j] == cs2[j] by {
            assert(b1.entry_ok(es[j], cs1[j]));
            assert(b2.entry_ok(es[j], cs2[j]));
        }
        assert(cs1 =~= cs2);
    }
    assert(b1.chunks@ =~= b2.chunks@);
}

/// Rebuild equivalence at the index level: for a bucket populated purely
/// through `write` calls — one whose index is in sync with its shards — an
/// index satisfying `BucketIndex::build`'s rebuild equation over the
/// bucket's objects is exactly the bucket's own index.
pub proof fn lemma_build_equivalence<P: StorageProvider>(
    b: &Bucket<P>,
    ids: Seq<usize>,
    em: Map<Seq<char>, Seq<SpecEntry>>,
    mm: Map<Seq<char>, Seq<u8>>,
)
    requires
        b.wf(),
        b.synced(),
        crate::index::spec_ids_ok(b.objects(), b.spec_name(), ids),
        spec_rebuild(b.objects(), b.spec_name(), ids) == Some((em, mm)),
    ensures
        em == b.entries_map(),
        mm == b.metadata_map(),
{
    let objects = b.provider.objects();
    let name = b.name@;
    let n = b.shards@.len();
    assert(vstd::std_specs::vec::spec_vec_len(&b.shards) == b.shards@.len());
    assert(n <= usize::MAX);
    let ids_b = Seq::new(n, |i: int| i as usize);
    assert forall|x: usize| #[trigger] ids_b.contains(x) implies objects.contains_key(
        (name, x),
    ) by {
        let i = choose|i: int| 0 <= i < ids_b.len() && ids_b[i] == x;
    }
    assert forall|x: usize| #[trigger] objects.contains_key((name, x)) implies ids_b.contains(
        x,
    ) by {
        assert(ids_b[x as int] == x);
    }
    assert forall|a: int, b2: int| 0 <= a < b2 < ids_b.len() implies ids_b[a] < ids_b[b2] by {
        assert(ids_b[a] == a as usize && ids_b[b2] == b2 as usize);
    }
    assert(crate::index::spec_ids_ok(objects, name, ids_b));
    assert forall|x: usize| ids_b.contains(x) <==> ids.contains(x) by {
        if ids_b.contains(x) {
            assert(objects.contains_key((name, x)));
        }
        if ids.contains(x) {
            assert(objects.contains_key((name, x)));
        }
    }
    lemma_sorted_unique(ids_b, ids);
    assert(spec_rebuild(objects, name, ids_b) == Some((b.index.entries_map(), b.index.metadata_map())));
}

/// Rebuild equivalence: for a bucket populated purely through `write`
/// calls — one whose index is in sync with its shards — a bucket
/// reconstructed from the same objects by rebuilding carries the same
/// entries, the same metadata and the same contents, so every read returns
/// the same bytes.
pub proof fn lemma_rebuild_equivalence<P1: StorageProvider, P2: StorageProvider>(
    b: &Bucket<P1>,
    rb: &Bucket<P2>,
)
    requires
        b.wf(),
        b.synced(),
        rb.wf(),
        rb.rebuilt(),
        rb.objects() == b.objects(),
        rb.spec_name() == b.spec_name(),
        rb.compression() == b.compression(),
    ensures
        rb.entries_map() == b.entries_map(),
        rb.metadata_map() == b.metadata_map(),
        rb.contents() == b.contents(),
{
    let ids_rb = choose|ids: Seq<usize>|
        {
            &&& #[trigger] crate::index::spec_ids_ok(rb.provider.objects(), rb.name@, ids)
            &&& spec_rebuild(rb.provider.objects(), rb.name@, ids) == Some(
                (rb.index.entries_map(), rb.index.metadata_map()),
            )
        };
    lemma_build_equivalence(b, ids_rb, rb.entries_map(), rb.metadata_map());
    lemma_contents_determined(b, rb);
}

/// A write, which appends one record to the active or to a fresh shard and
/// records its placement, keeps the index exactly the rebuild of the
/// shards.
proof fn lemma_write_preserves_synced<P: StorageProvider>(
    pre: &Bucket<P>,
    post: &Bucket<P>,
    key: Seq<char>,
    rec: SpecRecord,
    sid: usize,
    offset: int,
    mirror0: Seq<u8>,
    oldc: Seq<Seq<u8>>,
    olde: Seq<SpecEntry>,
    e_new: SpecEntry,
    meta: Option<Seq<u8>>,
)
    requires
        pre.wf(),
        pre.synced(),
        rec.key == key,
        rec_wf(rec),
        rec.meta == meta,
        e_new == spec_entry_of(sid, offset, rec),
        olde == (if pre.index.entries_map().contains_key(key) {
            pre.index.entries_map()[key]
        } else {
            Seq::<SpecEntry>::empty()
        }),
        post.name@ == pre.name@,
        post.config == pre.config,
        ({
            if sid == pre.shards@.len() {
                &&& mirror0 == Seq::<u8>::empty()
                &&& post.shards@.len() == pre.shards@.len() + 1
                &&& offset == 0
            } else {
                &&& sid + 1 == pre.shards@.len()
                &&& pre.shards@[sid as int].live
                &&& mirror0 == pre.shards@[sid as int].data@
                &&& offset == mirror0.len()
                &&& post.shards@.len() == pre.shards@.len()
            }
        }),
        post.provider.objects() == pre.provider.objects().insert(
            (pre.name@, sid),
            mirror0 + spec_encode_record(rec),
        ),
        forall|i: int| 0 <= i < post.shards@.len() ==> (#[trigger] post.shards@[i]).live,
        post.index.entries_map() == pre.index.entries_map().insert(key, olde.push(e_new)),
        post.index.metadata_map() == (match meta {
            Some(m) => pre.index.metadata_map().insert(key, m),
            None => pre.index.metadata_map(),
        }),
    ensures
        post.synced(),
{
    let name = pre.name@;
    let objects0 = pre.provider.objects();
    let objects1 = post.provider.objects();
    let n0 = pre.shards@.len() as int;
    let n1 = post.shards@.len() as int;
    let ids0 = Seq::new(n0 as nat, |i: int| i as usize);
    let ids1 = Seq::new(n1 as nat, |i: int| i as usize);
    let em0 = pre.index.entries_map();
    let mm0 = pre.index.metadata_map();
    let em_e = Map::<Seq<char>, Seq<SpecEntry>>::empty();
    let mm_e = Map::<Seq<char>, Seq<u8>>::empty();
    let enc_rec = spec_encode_record(rec);

    assert forall|id: usize| #[trigger] objects1.contains_key((name, id)) <==> 0 <= id < n1 by {
        assert(objects0.contains_key((name, id)) <==> 0 <= id < n0);
    }

    lemma_merge_shards_all_parse(em_e, mm_e, objects0, name, ids0);

    if sid == n0 {
        // A fresh shard: the listing grows by one id; the old shards'
        // objects are untouched, and the new object holds one record.
        assert(ids1 =~= ids0.push(sid));
        assert forall|j: int| 0 <= j < ids0.len() implies {
            &&& objects1.contains_key((name, #[trigger] ids0[j])) == objects0.contains_key(
                (name, ids0[j]),
            )
            &&& objects1.contains_key((name, ids0[j])) ==> objects1[(name, ids0[j])] == objects0[(
            name,
            ids0[j],
            )]
        } by {
            assert(ids0[j] == j as usize);
        }
        lemma_merge_shards_congruence(em_e, mm_e, objects1, objects0, name, ids0);
        assert(spec_merge_shards(em_e, mm_e, objects1, name, ids0) == Some((em0, mm0)));
        lemma_parse_shard_from_append(Seq::empty(), rec, 0);
        assert(Seq::<u8>::empty() + enc_rec =~= enc_rec);
        assert(mirror0 + enc_rec =~= enc_rec);
        let ros1 = Seq::<(SpecRecord, int)>::empty().push((rec, 0int));
        assert(spec_parse_shard(objects1[(name, sid)]) == Some(ros1));
        lemma_merge_shards_push(em_e, mm_e, objects1, name, ids0, sid);
        assert(ros1[0] == (rec, 0int));
        assert(ros1.drop_first() =~= Seq::<(SpecRecord, int)>::empty());
        let p1 = spec_merge_record(em0, mm0, sid, (rec, 0int));
        assert(spec_merge_records(p1.0, p1.1, sid, ros1.drop_first()) == (p1.0, p1.1));
        assert(spec_merge_records(em0, mm0, sid, ros1) == (p1.0, p1.1));
        assert(p1.0 == post.index.entries_map());
        assert(p1.1 == post.index.metadata_map());
        assert(spec_rebuild(objects1, name, ids1) == Some(
            (post.index.entries_map(), post.index.metadata_map()),
        ));
    } else {
        // The active shard: its object gains one record at its end; the
        // other shards' objects are untouched.
        let ids_p = Seq::new((n0 - 1) as nat, |i: int| i as usize);
        assert(ids1 =~= ids0);
        assert(ids0 =~= ids_p.push(sid));
        lemma_merge_shards_snoc_some(em_e, mm_e, objects0, name, ids_p, sid);
        assert(ids0[n0 - 1] == sid);
        assert(objects0.contains_key((name, sid)) && spec_parse_shard(objects0[(name, sid)])
            is Some);
        lemma_merge_shards_push(em_e, mm_e, objects0, name, ids_p, sid);
        let prefix0 = spec_merge_shards(em_e, mm_e, objects0, name, ids_p)->Some_0;
        let ros_old = spec_parse_shard(objects0[(name, sid)])->Some_0;
        assert(spec_merge_records(prefix0.0, prefix0.1, sid, ros_old) == (em0, mm0));
        assert forall|j: int| 0 <= j < ids_p.len() implies {
            &&& objects1.contains_key((name, #[trigger] ids_p[j])) == objects0.contains_key(
                (name, ids_p[j]),
            )
            &&& objects1.contains_key((name, ids_p[j])) ==> objects1[(name, ids_p[j])]
                == objects0[(name, ids_p[j])]
        } by {
            assert(ids_p[j] == j as usize);
        }
        lemma_merge_shards_congruence(em_e, mm_e, objects1, objects0, name, ids_p);
        assert(spec_merge_shards(em_e, mm_e, objects1, name, ids_p) == Some(prefix0));
        assert(mirror0 == objects0[(name, sid)]);
        lemma_parse_shard_from_append(mirror0, rec, 0);
        assert(spec_parse_shard(objects1[(name, sid)]) == Some(ros_old.push((rec, offset))));
        lemma_merge_shards_push(em_e, mm_e, objects1, name, ids_p, sid);
        lemma_merge_records_push(prefix0.0, prefix0.1, sid, ros_old, (rec, offset));
        let p1 = spec_merge_record(em0, mm0, sid, (rec, offset));
        assert(p1.0 == post.index.entries_map());
        assert(p1.1 == post.index.metadata_map());
        assert(spec_rebuild(objects1, name, ids1) == Some(
            (post.index.entries_map(), post.index.metadata_map()),
        ));
    }
}

} // verus!
