//! Shards: bounded-capacity append-only storage units.
//!
//! A shard is identified by an id unique within its bucket and holds a
//! sequence of framed records. `ShardWriter` is an exclusive append cursor
//! over a single shard object; `ShardReader` is a stateless random-access
//! view that fetches the record an `IndexEntry` points at and validates it.

use vstd::prelude::*;

use vstd::slice::slice_to_vec;

use crate::checksum::{compute_checksum, digest_of, verify_checksum};
use crate::codec::{
    encode_record, parse_record_at, spec_encode_record, spec_parse_record, SpecRecord,
};
use crate::compress::{decode_of, decode_data, supported, CompressionType};
use crate::error::Error;
use crate::index::{IndexEntry, SpecEntry};
use crate::storage::StorageProvider;

verus! {

/// The default maximum shard size: 256 MiB.
pub const DEFAULT_SHARD_SIZE: usize = 256 * 1024 * 1024;

/// The default maximum shard size, as the configuration module hands it
/// out.
pub fn shard_size() -> (s: usize)
    ensures
        s == DEFAULT_SHARD_SIZE,
{
    DEFAULT_SHARD_SIZE
}

/// One shard of a bucket: its id, the byte size of its object, an in-memory
/// mirror of the object's bytes, and whether the object currently exists in
/// the backend.
pub struct Shard {
    pub(crate) id: usize,
    pub(crate) size: usize,
    pub(crate) data: Vec<u8>,
    pub(crate) live: bool,
}

impl Shard {
    /// A fresh shard handle whose object has not been written yet.
    pub fn new(id: usize) -> (r: Self)
        ensures
            r.spec_id() == id,
            r.spec_size() == 0,
            !r.spec_live(),
    {
        Shard { id, size: 0, data: Vec::new(), live: false }
    }

    /// The shard's id.
    pub closed spec fn spec_id(&self) -> int {
        self.id as int
    }

    /// The byte size of the shard's object.
    pub closed spec fn spec_size(&self) -> int {
        self.size as int
    }

    /// Whether the shard's object exists in the backend.
    pub closed spec fn spec_live(&self) -> bool {
        self.live
    }
}

/// Whether `e` points at a record of the bucket's objects whose stored data
/// decodes to `d`: the object exists, a record frame parses at the entry's
/// offset, its data length and checksum match the entry, and decoding the
/// data under `c` yields `d`, whose digest is the entry's checksum.
pub open spec fn spec_entry_resolves(
    objects: Map<(Seq<char>, usize), Seq<u8>>,
    name: Seq<char>,
    c: CompressionType,
    e: SpecEntry,
    d: Seq<u8>,
) -> bool {
    &&& 0 <= e.shard_id <= usize::MAX
    &&& objects.contains_key((name, e.shard_id as usize))
    &&& 0 <= e.offset <= objects[(name, e.shard_id as usize)].len()
    &&& spec_parse_record(objects[(name, e.shard_id as usize)].skip(e.offset)) matches Some(pr)
        && {
        &&& pr.0.data.len() == e.size
        &&& pr.0.checksum == e.checksum
        &&& decode_of(c, pr.0.data) == Some(d)
        &&& digest_of(d) == e.checksum
    }
}

/// Whether a record is sound under an algorithm: its stored data decodes
/// and the decoded blob hashes to the record's own checksum.
pub open spec fn spec_record_sound(c: CompressionType, rec: SpecRecord) -> bool {
    decode_of(c, rec.data) matches Some(d) && digest_of(d) == rec.checksum
}

/// Rewriting one shard object does not disturb how an entry resolves, as
/// long as any rewrite of the entry's own shard only appends bytes.
pub proof fn lemma_resolves_after_update(
    objects: Map<(Seq<char>, usize), Seq<u8>>,
    name: Seq<char>,
    c: CompressionType,
    sid: usize,
    newobj: Seq<u8>,
    e: SpecEntry,
    d: Seq<u8>,
)
    requires
        spec_entry_resolves(objects, name, c, e, d),
        e.shard_id == sid ==> exists|tail: Seq<u8>| newobj == objects[(name, sid)] + tail,
    ensures
        spec_entry_resolves(objects.insert((name, sid), newobj), name, c, e, d),
{
    if e.shard_id == sid as int {
        let old_obj = objects[(name, sid)];
        let tail = choose|tail: Seq<u8>| newobj == old_obj + tail;
        assert((old_obj + tail).skip(e.offset) =~= old_obj.skip(e.offset) + tail);
        crate::codec::lemma_parse_record_extend(old_obj.skip(e.offset), tail);
    }
}

/// Fetches, decodes and verifies the record an entry points at.
///
/// Whatever the backend holds, a returned blob always hashes to the entry's
/// recorded checksum: corrupted data is never returned silently. When the
/// entry resolves against the backend's current objects, the call returns
/// exactly the resolved blob, unless the backend read itself fails. An
/// `Integrity` error is never spurious: it is returned only when the
/// entry's object is present and the entry does not resolve against it — a
/// frame that is out of range, unparsable or the wrong size, or a blob
/// whose digest differs from the entry's recorded checksum.
pub fn read_entry_from<P: StorageProvider>(
    provider: &P,
    bucket: &str,
    entry: &IndexEntry,
    c: CompressionType,
) -> (r: Result<Vec<u8>, Error>)
    ensures
        r matches Ok(v) ==> digest_of(v@) == entry@.checksum,
        forall|d: Seq<u8>|
            spec_entry_resolves(provider.objects(), bucket@, c, entry@, d) ==> ((
            r matches Ok(v) && v@ == d) || (r matches Err(e) && e matches Error::Io(_))),
        r matches Err(e) ==> (e matches Error::Io(_) || e == Error::Integrity || e
            == Error::UnsupportedCompression),
        r matches Err(e) && e == Error::Integrity ==> {
            &&& provider.objects().contains_key((bucket@, entry.shard_id))
            &&& forall|d: Seq<u8>| !spec_entry_resolves(provider.objects(), bucket@, c, entry@, d)
        },
        r matches Err(e) && e == Error::UnsupportedCompression ==> !supported(c),
{
    let bytes = match provider.read(bucket, entry.shard_id) {
        Ok(b) => b,
        Err(e) => {
            return Err(e);
        },
    };
    if entry.offset > bytes.len() {
        return Err(Error::Integrity);
    }
    let parsed = match parse_record_at(bytes.as_slice(), entry.offset) {
        Some(p) => p,
        None => {
            return Err(Error::Integrity);
        },
    };
    let rec = parsed.0;
    if rec.data.len() != entry.size {
        return Err(Error::Integrity);
    }
    let decoded = match decode_data(c, rec.data.as_slice()) {
        Ok(v) => v,
        Err(e) => {
            return Err(e);
        },
    };
    match verify_checksum(decoded.as_slice(), &entry.checksum) {
        Ok(()) => Ok(decoded),
        Err(e) => Err(e),
    }
}

/// A stateless random-access view of one shard object.
pub struct ShardReader<P: StorageProvider> {
    provider: P,
    bucket: String,
    shard_id: usize,
}

impl<P: StorageProvider> ShardReader<P> {
    /// A reader over the given shard object.
    pub fn new(provider: P, bucket: String, shard_id: usize) -> (r: Self)
        ensures
            r.spec_provider().objects() == provider.objects(),
            r.spec_bucket() == bucket@,
            r.spec_shard_id() == shard_id,
    {
        ShardReader { provider, bucket, shard_id }
    }

    /// The backend this reader fetches from.
    pub closed spec fn spec_provider(&self) -> &P {
        &self.provider
    }

    /// The bucket the shard belongs to.
    pub closed spec fn spec_bucket(&self) -> Seq<char> {
        self.bucket@
    }

    /// The id of the shard this reader views.
    pub closed spec fn spec_shard_id(&self) -> usize {
        self.shard_id
    }

    /// Reads the whole shard object.
    pub fn read_all(&self) -> (r: Result<Vec<u8>, Error>)
        ensures
            r matches Ok(v) ==> {
                &&& self.spec_provider().objects().contains_key(
                    (self.spec_bucket(), self.spec_shard_id()),
                )
                &&& v@ == self.spec_provider().objects()[
                    (self.spec_bucket(), self.spec_shard_id())]
            },
            r matches Err(e) ==> e matches Error::Io(_),
    {
        self.provider.read(self.bucket.as_str(), self.shard_id)
    }

    /// Fetches, decodes and verifies the record an entry of this shard
    /// points at; same contract as `read_entry_from`.
    pub fn read(&self, entry: &IndexEntry, c: CompressionType) -> (r: Result<Vec<u8>, Error>)
        requires
            entry@.shard_id == self.spec_shard_id(),
        ensures
            r matches Ok(v) ==> digest_of(v@) == entry@.checksum,
            forall|d: Seq<u8>|
                spec_entry_resolves(
                    self.spec_provider().objects(),
                    self.spec_bucket(),
                    c,
                    entry@,
                    d,
                ) ==> ((r matches Ok(v) && v@ == d) || (r matches Err(e)
                    && e matches Error::Io(_))),
            r matches Err(e) ==> (e matches Error::Io(_) || e == Error::Integrity || e
                == Error::UnsupportedCompression),
            r matches Err(e) && e == Error::Integrity ==> {
                &&& self.spec_provider().objects().contains_key(
                    (self.spec_bucket(), entry.shard_id),
                )
                &&& forall|d: Seq<u8>|
                    !spec_entry_resolves(
                        self.spec_provider().objects(),
                        self.spec_bucket(),
                        c,
                        entry@,
                        d,
                    )
            },
            r matches Err(e) && e == Error::UnsupportedCompression ==> !supported(c),
    {
        read_entry_from(&self.provider, self.bucket.as_str(), entry, c)
    }
}

/// An exclusive append cursor over one shard object.
///
/// The writer tracks the shard's logical size — the payload and metadata
/// bytes appended so far, excluding frame overhead — and the entry list
/// describing each append. Its object is addressed under the empty bucket
/// name, by shard id alone.
pub struct ShardWriter<P: StorageProvider> {
    provider: P,
    bucket: String,
    id: usize,
    /// The logical size: payload and metadata bytes appended so far.
    pub current_size: usize,
    /// One entry per appended record, in append order.
    pub entries: Vec<IndexEntry>,
    buf: Vec<u8>,
}

impl<P: StorageProvider> ShardWriter<P> {
    /// The writer's internal bounds hold.
    pub closed spec fn wf(&self) -> bool {
        &&& self.current_size <= DEFAULT_SHARD_SIZE
        &&& self.bucket@ == Seq::<char>::empty()
    }

    /// The shard id this writer appends to.
    pub closed spec fn spec_id(&self) -> usize {
        self.id
    }

    /// The logical size: payload and metadata bytes appended so far.
    pub closed spec fn spec_current_size(&self) -> int {
        self.current_size as int
    }

    /// The entry list, in append order.
    pub closed spec fn spec_entries(&self) -> Seq<IndexEntry> {
        self.entries@
    }

    /// The bytes of the shard object this writer has produced so far.
    pub closed spec fn stored(&self) -> Seq<u8> {
        self.buf@
    }

    /// The backend this writer persists to.
    pub closed spec fn spec_provider(&self) -> &P {
        &self.provider
    }

    /// A fresh writer over an empty shard.
    pub fn new(id: usize, writer: P) -> (r: Self)
        ensures
            r.wf(),
            r.spec_current_size() == 0,
            r.spec_entries() == Seq::<IndexEntry>::empty(),
            r.stored() == Seq::<u8>::empty(),
            r.spec_id() == id,
            r.spec_provider().objects() == writer.objects(),
    {
        ShardWriter {
            provider: writer,
            bucket: String::new(),
            id,
            current_size: 0,
            entries: Vec::new(),
            buf: Vec::new(),
        }
    }

    /// Appends one record to the shard.
    ///
    /// The record's logical size is the data length plus the metadata
    /// length, if metadata is present. The append fails with
    /// `ShardCapacityExceeded` when that size does not fit the shard's
    /// remaining capacity, and the writer never splits a record. On
    /// success, the checksum is computed over `data` alone, the framed
    /// record is appended to the shard object and persisted in full, and
    /// only then is the entry recorded — a record is never partially
    /// indexed — with the offset the logical size had before this write.
    pub fn write(&mut self, key: &str, data: &[u8], metadata: Option<&[u8]>) -> (r: Result<
        (),
        Error,
    >)
        requires
            old(self).wf(),
        ensures
            final(self).wf(),
            final(self).spec_id() == old(self).spec_id(),
            ({
                let data_len = data@.len() + (match metadata {
                    Some(m) => m@.len(),
                    None => 0,
                });
                let rec = SpecRecord {
                    key: key@,
                    data: data@,
                    meta: match metadata {
                        Some(m) => Some(m@),
                        None => None,
                    },
                    checksum: digest_of(data@),
                };
                if old(self).spec_current_size() + data_len > DEFAULT_SHARD_SIZE {
                    &&& r matches Err(e) && e == Error::ShardCapacityExceeded
                    &&& final(self).spec_current_size() == old(self).spec_current_size()
                    &&& final(self).spec_entries() == old(self).spec_entries()
                    &&& final(self).stored() == old(self).stored()
                    &&& final(self).spec_provider().objects() == old(
                        self,
                    ).spec_provider().objects()
                } else {
                    match r {
                        Ok(_) => {
                            &&& final(self).spec_current_size() == old(self).spec_current_size() + data_len
                            &&& final(self).spec_entries().len() == old(self).spec_entries().len() + 1
                            &&& final(self).spec_entries() == old(self).spec_entries().push(
                                final(self).spec_entries().last(),
                            )
                            &&& final(self).spec_entries().last()@ == (SpecEntry {
                                shard_id: old(self).spec_id() as int,
                                offset: old(self).spec_current_size(),
                                size: data_len as int,
                                checksum: digest_of(data@),
                            })
                            &&& final(self).stored() == old(self).stored()
                                + spec_encode_record(rec)
                            &&& final(self).spec_provider().objects() == old(
                                self,
                            ).spec_provider().objects().insert(
                                (Seq::<char>::empty(), old(self).spec_id()),
                                final(self).stored(),
                            )
                        },
                        Err(e) => {
                            &&& e matches Error::Io(_)
                            &&& final(self).spec_current_size() == old(self).spec_current_size()
                            &&& final(self).spec_entries() == old(self).spec_entries()
                            &&& final(self).stored() == old(self).stored()
                            &&& final(self).spec_provider().objects() == old(
                                self,
                            ).spec_provider().objects()
                        },
                    }
                }
            }),
    {
        let meta_len = match metadata {
            Some(m) => m.len(),
            None => 0,
        };
        if data.len() as u128 + meta_len as u128 + self.current_size as u128
            > DEFAULT_SHARD_SIZE as u128 {
            return Err(Error::ShardCapacityExceeded);
        }
        let data_len = data.len() + meta_len;
        let checksum = compute_checksum(data);
        let frame = encode_record(key, data, metadata, &checksum);
        let mut obj = slice_to_vec(self.buf.as_slice());
        obj.extend_from_slice(frame.as_slice());
        match self.provider.write(self.bucket.as_str(), self.id, obj.as_slice()) {
            Ok(()) => {
                let entry = IndexEntry::new(self.id, self.current_size, data_len, checksum);
                self.buf = obj;
                self.entries.push(entry);
                self.current_size = self.current_size + data_len;
                Ok(())
            },
            Err(e) => Err(e),
        }
    }
}

} // verus!
