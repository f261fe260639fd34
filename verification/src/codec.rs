//! Shard record framing.
//!
//! A shard object is a self-describing sequence of records. Each record
//! carries its key, its stored (post-compression) data, an optional metadata
//! blob, and the checksum of the original uncompressed data, so that a
//! bucket's index can be reconstructed from the shard objects alone.
//!
//! The frame of one record is
//!
//! ```text
//! [key length: u64 LE] [key: UTF-8 bytes]
//! [data length: u64 LE] [data bytes]
//! [metadata flag: one byte, 0 or 1] [metadata length: u64 LE] [metadata bytes]
//! [checksum: 32 bytes]
//! ```
//!
//! where an absent metadata blob is framed as flag 0 with length 0.

use vstd::prelude::*;

use vstd::bytes::{spec_u64_from_le_bytes, spec_u64_to_le_bytes, u64_from_le_bytes, u64_to_le_bytes};
use vstd::slice::{slice_subrange, slice_to_vec};
use vstd::string::StringSliceAdditionalSpecFns;
use vstd::utf8::{decode_utf8, encode_utf8, valid_utf8};

verus! {

/// One shard record, at the specification level: the key it belongs to, the
/// stored (post-compression) data, the optional metadata blob, and the
/// digest of the original uncompressed data.
pub struct SpecRecord {
    pub key: Seq<char>,
    pub data: Seq<u8>,
    pub meta: Option<Seq<u8>>,
    pub checksum: Seq<u8>,
}

/// The length of a record's metadata blob; 0 when absent.
pub open spec fn spec_meta_len(m: Option<Seq<u8>>) -> int {
    match m {
        Some(s) => s.len() as int,
        None => 0,
    }
}

/// A record that the frame can represent: a 32-byte checksum and fields
/// whose lengths fit the frame's `u64` length prefixes.
pub open spec fn rec_wf(r: SpecRecord) -> bool {
    &&& r.checksum.len() == 32
    &&& encode_utf8(r.key).len() <= u64::MAX
    &&& r.data.len() <= u64::MAX
    &&& spec_meta_len(r.meta) <= u64::MAX
}

/// The frame of the metadata section.
pub open spec fn spec_encode_meta(m: Option<Seq<u8>>) -> Seq<u8> {
    match m {
        Some(s) => seq![1u8] + spec_u64_to_le_bytes(s.len() as u64) + s,
        None => seq![0u8] + spec_u64_to_le_bytes(0u64),
    }
}

/// The frame of one record.
pub open spec fn spec_encode_record(r: SpecRecord) -> Seq<u8> {
    spec_u64_to_le_bytes(encode_utf8(r.key).len() as u64) + encode_utf8(r.key)
        + spec_u64_to_le_bytes(r.data.len() as u64) + r.data + spec_encode_meta(r.meta)
        + r.checksum
}

/// Parses the record framed at the start of `b`. Yields the record and the
/// number of bytes its frame occupies, or `None` when no well-formed frame
/// starts there. Trailing bytes beyond the frame are ignored.
pub open spec fn spec_parse_record(b: Seq<u8>) -> Option<(SpecRecord, int)> {
    if b.len() < 8 {
        Option::None
    } else {
        let key_len = spec_u64_from_le_bytes(b.subrange(0, 8)) as int;
        if b.len() < 16 + key_len {
            Option::None
        } else {
            let key_bytes = b.subrange(8, 8 + key_len);
            if !valid_utf8(key_bytes) {
                Option::None
            } else {
                let data_len = spec_u64_from_le_bytes(
                    b.subrange(8 + key_len, 16 + key_len),
                ) as int;
                if b.len() < 25 + key_len + data_len {
                    Option::None
                } else {
                    let p = 16 + key_len + data_len;
                    let data = b.subrange(16 + key_len, p);
                    let flag = b[p];
                    let meta_len = spec_u64_from_le_bytes(b.subrange(p + 1, p + 9)) as int;
                    if flag != 0 && flag != 1 {
                        Option::None
                    } else if flag == 0 && meta_len != 0 {
                        Option::None
                    } else if b.len() < p + 41 + meta_len {
                        Option::None
                    } else {
                        let meta = if flag == 1 {
                            Some(b.subrange(p + 9, p + 9 + meta_len))
                        } else {
                            Option::None
                        };
                        let checksum = b.subrange(p + 9 + meta_len, p + 41 + meta_len);
                        Some(
                            (
                                SpecRecord { key: decode_utf8(key_bytes), data, meta, checksum },
                                p + 41 + meta_len,
                            ),
                        )
                    }
                }
            }
        }
    }
}

/// A parsed frame is at least 57 bytes, never reaches past the input, and
/// yields a record that the frame can represent again.
pub proof fn lemma_parse_record_len(b: Seq<u8>)
    ensures
        spec_parse_record(b) matches Some(pr) ==> {
            &&& 57 <= pr.1 <= b.len()
            &&& rec_wf(pr.0)
            &&& spec_meta_len(pr.0.meta) + pr.0.data.len() + 57 <= pr.1
        },
{
    if spec_parse_record(b) is Some {
        let key_len = spec_u64_from_le_bytes(b.subrange(0, 8)) as int;
        let key_bytes = b.subrange(8, 8 + key_len);
        vstd::utf8::decode_utf8_encode_utf8(key_bytes);
    }
}

/// Bytes appended after a well-formed frame do not change how it parses.
pub proof fn lemma_parse_record_extend(b: Seq<u8>, tail: Seq<u8>)
    requires
        spec_parse_record(b) is Some,
    ensures
        spec_parse_record(b + tail) == spec_parse_record(b),
{
    let c = b + tail;
    assert(c.subrange(0, 8) =~= b.subrange(0, 8));
    let key_len = spec_u64_from_le_bytes(b.subrange(0, 8)) as int;
    assert(c.subrange(8, 8 + key_len) =~= b.subrange(8, 8 + key_len));
    assert(c.subrange(8 + key_len, 16 + key_len) =~= b.subrange(8 + key_len, 16 + key_len));
    let data_len = spec_u64_from_le_bytes(b.subrange(8 + key_len, 16 + key_len)) as int;
    let p = 16 + key_len + data_len;
    assert(c.subrange(16 + key_len, p) =~= b.subrange(16 + key_len, p));
    assert(c[p] == b[p]);
    assert(c.subrange(p + 1, p + 9) =~= b.subrange(p + 1, p + 9));
    let meta_len = spec_u64_from_le_bytes(b.subrange(p + 1, p + 9)) as int;
    assert(c.subrange(p + 9, p + 9 + meta_len) =~= b.subrange(p + 9, p + 9 + meta_len));
    assert(c.subrange(p + 9 + meta_len, p + 41 + meta_len) =~= b.subrange(
        p + 9 + meta_len,
        p + 41 + meta_len,
    ));
}

/// Parsing the frame of a representable record, with anything after it,
/// yields the record back and consumes exactly the frame.
pub proof fn lemma_parse_encode(r: SpecRecord, tail: Seq<u8>)
    requires
        rec_wf(r),
    ensures
        spec_encode_record(r).len() == 57 + encode_utf8(r.key).len() + r.data.len()
            + spec_meta_len(r.meta),
        spec_parse_record(spec_encode_record(r) + tail) == Some(
            (r, spec_encode_record(r).len() as int),
        ),
{
    vstd::bytes::lemma_auto_spec_u64_to_from_le_bytes();
    vstd::utf8::encode_utf8_valid_utf8(r.key);
    vstd::utf8::encode_utf8_decode_utf8(r.key);
    let kb = encode_utf8(r.key);
    let key_len = kb.len() as int;
    let data_len = r.data.len() as int;
    let meta_len = spec_meta_len(r.meta);
    let e = spec_encode_record(r);
    assert(e.len() == 57 + key_len + data_len + meta_len);
    let b = e + tail;
    let p = 16 + key_len + data_len;

    assert(b.subrange(0, 8) =~= spec_u64_to_le_bytes(key_len as u64));
    assert(spec_u64_from_le_bytes(b.subrange(0, 8)) == key_len as u64);
    assert(b.subrange(8, 8 + key_len) =~= kb);
    assert(b.subrange(8 + key_len, 16 + key_len) =~= spec_u64_to_le_bytes(data_len as u64));
    assert(spec_u64_from_le_bytes(b.subrange(8 + key_len, 16 + key_len)) == data_len as u64);
    assert(b.subrange(16 + key_len, p) =~= r.data);
    match r.meta {
        Some(m) => {
            assert(b[p] == 1u8);
            assert(b.subrange(p + 1, p + 9) =~= spec_u64_to_le_bytes(meta_len as u64));
            assert(spec_u64_from_le_bytes(b.subrange(p + 1, p + 9)) == meta_len as u64);
            assert(b.subrange(p + 9, p + 9 + meta_len) =~= m);
            assert(b.subrange(p + 9 + meta_len, p + 41 + meta_len) =~= r.checksum);
        },
        None => {
            assert(b[p] == 0u8);
            assert(b.subrange(p + 1, p + 9) =~= spec_u64_to_le_bytes(0u64));
            assert(spec_u64_from_le_bytes(b.subrange(p + 1, p + 9)) == 0u64);
            assert(b.subrange(p + 9 + meta_len, p + 41 + meta_len) =~= r.checksum);
        },
    }
    assert(spec_parse_record(b) matches Some(pr) && pr.0 =~= r && pr.1 == e.len());
}

/// Parses every record framed in `b` from position `pos` to the end. Yields
/// each record with the byte offset its frame starts at, or `None` when the
/// bytes from `pos` on are not a sequence of well-formed frames.
pub open spec fn spec_parse_shard_from(b: Seq<u8>, pos: int) -> Option<Seq<(SpecRecord, int)>>
    recommends
        0 <= pos <= b.len(),
    decreases b.len() - pos,
    when 0 <= pos <= b.len()
    via spec_parse_shard_from_decreases
{
    if pos == b.len() {
        Some(Seq::empty())
    } else {
        match spec_parse_record(b.skip(pos)) {
            Option::None => Option::None,
            Some(pr) => match spec_parse_shard_from(b, pos + pr.1) {
                Option::None => Option::None,
                Some(rest) => Some(seq![(pr.0, pos)] + rest),
            },
        }
    }
}

#[via_fn]
proof fn spec_parse_shard_from_decreases(b: Seq<u8>, pos: int) {
    if pos < b.len() {
        lemma_parse_record_len(b.skip(pos));
    }
}

/// Parses a whole shard object into its records and their frame offsets.
pub open spec fn spec_parse_shard(b: Seq<u8>) -> Option<Seq<(SpecRecord, int)>> {
    spec_parse_shard_from(b, 0)
}

/// Appending the frame of a representable record to a shard object that
/// parses appends that record, at the old end of the object, to the parse.
pub proof fn lemma_parse_shard_from_append(b: Seq<u8>, r: SpecRecord, pos: int)
    requires
        rec_wf(r),
        0 <= pos <= b.len(),
        spec_parse_shard_from(b, pos) is Some,
    ensures
        spec_parse_shard_from(b + spec_encode_record(r), pos) == Some(
            spec_parse_shard_from(b, pos)->Some_0.push((r, b.len() as int)),
        ),
    decreases b.len() - pos,
{
    let e = spec_encode_record(r);
    let c = b + e;
    lemma_parse_encode(r, Seq::empty());
    assert(e + Seq::<u8>::empty() =~= e);
    if pos == b.len() {
        assert(c.skip(pos) =~= e);
        assert(spec_parse_record(c.skip(pos)) == Some((r, e.len() as int)));
        assert(pos + e.len() == c.len());
        assert(spec_parse_shard_from(c, pos + e.len() as int) == Some(
            Seq::<(SpecRecord, int)>::empty(),
        ));
        assert(spec_parse_shard_from(c, pos) == Some(seq![(r, pos)] + Seq::empty()));
        assert(seq![(r, pos)] + Seq::empty() =~= Seq::<(SpecRecord, int)>::empty().push(
            (r, b.len() as int),
        ));
    } else {
        let pr = spec_parse_record(b.skip(pos))->Some_0;
        lemma_parse_record_len(b.skip(pos));
        lemma_parse_record_extend(b.skip(pos), e);
        assert(c.skip(pos) =~= b.skip(pos) + e);
        lemma_parse_shard_from_append(b, r, pos + pr.1);
        let rest = spec_parse_shard_from(b, pos + pr.1)->Some_0;
        assert(seq![(pr.0, pos)] + rest.push((r, b.len() as int)) =~= (seq![(pr.0, pos)]
            + rest).push((r, b.len() as int)));
    }
}

/// Each record of a parsed shard object parses again, alone, at its own
/// frame offset, and its frame lies within the object.
pub proof fn lemma_parse_shard_from_addressable(b: Seq<u8>, pos: int)
    requires
        0 <= pos <= b.len(),
        spec_parse_shard_from(b, pos) is Some,
    ensures
        forall|i: int|
            0 <= i < spec_parse_shard_from(b, pos)->Some_0.len() ==> {
                let ro = #[trigger] spec_parse_shard_from(b, pos)->Some_0[i];
                &&& pos <= ro.1 < b.len()
                &&& spec_parse_record(b.skip(ro.1)) matches Some(pr2) && pr2.0 == ro.0
            },
    decreases b.len() - pos,
{
    if pos < b.len() {
        let pr = spec_parse_record(b.skip(pos))->Some_0;
        lemma_parse_record_len(b.skip(pos));
        lemma_parse_shard_from_addressable(b, pos + pr.1);
    }
}

/// Compares two byte strings.
pub fn bytes_eq(a: &[u8], b: &[u8]) -> (r: bool)
    ensures
        r == (a@ == b@),
{
    if a.len() != b.len() {
        return false;
    }
    let mut i: usize = 0;
    while i < a.len()
        invariant
            i <= a@.len(),
            a@.len() == b@.len(),
            forall|j: int| 0 <= j < i ==> a@[j] == b@[j],
        decreases a@.len() - i,
    {
        if a[i] != b[i] {
            assert(a@ != b@);
            return false;
        }
        i += 1;
    }
    assert(a@ =~= b@);
    true
}

/// Compares two strings by their UTF-8 bytes; UTF-8 encoding is injective,
/// so this decides character equality.
pub fn str_eq(a: &str, b: &str) -> (r: bool)
    ensures
        r == (a@ == b@),
{
    let r = bytes_eq(a.as_bytes(), b.as_bytes());
    proof {
        if encode_utf8(a@) == encode_utf8(b@) {
            vstd::utf8::encode_utf8_decode_utf8(a@);
            vstd::utf8::encode_utf8_decode_utf8(b@);
        }
    }
    r
}

/// One shard record in executable form.
pub struct Record {
    pub key: String,
    pub data: Vec<u8>,
    pub meta: Option<Vec<u8>>,
    pub checksum: [u8; 32],
}

impl View for Record {
    type V = SpecRecord;

    open spec fn view(&self) -> SpecRecord {
        SpecRecord {
            key: self.key@,
            data: self.data@,
            meta: match self.meta {
                Some(m) => Some(m@),
                Option::None => Option::None,
            },
            checksum: self.checksum@,
        }
    }
}

/// Relies on std's `str::from_utf8`: it succeeds exactly on valid UTF-8 and
/// then decodes it; the result depends on the bytes alone.
#[verifier::external_body]
fn bytes_to_string(b: &[u8]) -> (r: Option<String>)
    ensures
        r matches Some(s) ==> valid_utf8(b@) && s@ == decode_utf8(b@),
        r is None ==> !valid_utf8(b@),
{
    match std::str::from_utf8(b) {
        Ok(s) => Some(s.to_string()),
        Err(_) => None,
    }
}

/// Relies on std's `<[u8]>::copy_from_slice`: it copies the bytes.
#[verifier::external_body]
fn bytes32_from_slice(b: &[u8]) -> (r: [u8; 32])
    requires
        b@.len() == 32,
    ensures
        r@ == b@,
{
    let mut out = [0u8; 32];
    out.copy_from_slice(b);
    out
}

/// Builds the frame of one record.
pub fn encode_record(key: &str, data: &[u8], meta: Option<&[u8]>, checksum: &[u8; 32]) -> (r: Vec<
    u8,
>)
    ensures
        r@ == spec_encode_record(
            SpecRecord {
                key: key@,
                data: data@,
                meta: match meta {
                    Some(m) => Some(m@),
                    Option::None => Option::None,
                },
                checksum: checksum@,
            },
        ),
{
    proof {
        vstd::bytes::lemma_auto_spec_u64_to_from_le_bytes();
    }
    let key_bytes = key.as_bytes();
    let mut out: Vec<u8> = Vec::new();
    let mut key_len_bytes = u64_to_le_bytes(key_bytes.len() as u64);
    out.append(&mut key_len_bytes);
    out.extend_from_slice(key_bytes);
    let mut data_len_bytes = u64_to_le_bytes(data.len() as u64);
    out.append(&mut data_len_bytes);
    out.extend_from_slice(data);
    let ghost kb = encode_utf8(key@);
    let ghost pre_meta = out@;
    proof {
        assert(pre_meta =~= spec_u64_to_le_bytes(kb.len() as u64) + kb + spec_u64_to_le_bytes(
            data@.len() as u64,
        ) + data@);
    }
    let ghost spec_meta = match meta {
        Some(m) => Some(m@),
        Option::None => Option::None::<Seq<u8>>,
    };
    match meta {
        Some(m) => {
            out.push(1u8);
            let mut meta_len_bytes = u64_to_le_bytes(m.len() as u64);
            out.append(&mut meta_len_bytes);
            out.extend_from_slice(m);
            proof {
                assert(out@ =~= pre_meta + spec_encode_meta(spec_meta));
            }
        },
        Option::None => {
            out.push(0u8);
            let mut meta_len_bytes = u64_to_le_bytes(0u64);
            out.append(&mut meta_len_bytes);
            proof {
                assert(out@ =~= pre_meta + spec_encode_meta(spec_meta));
            }
        },
    }
    out.extend_from_slice(checksum.as_slice());
    proof {
        let rec = SpecRecord { key: key@, data: data@, meta: spec_meta, checksum: checksum@ };
        assert(out@ =~= pre_meta + spec_encode_meta(spec_meta) + checksum@);
        assert(out@ == spec_encode_record(rec));
    }
    out
}

/// Parses the record framed at byte `pos` of `b`. Yields the record and the
/// byte length of its frame, or `None` when no well-formed frame starts
/// there.
pub fn parse_record_at(b: &[u8], pos: usize) -> (r: Option<(Record, usize)>)
    requires
        pos <= b@.len(),
    ensures
        r matches Some(p) ==> {
            &&& spec_parse_record(b@.skip(pos as int)) == Some((p.0@, p.1 as int))
            &&& pos + p.1 <= b@.len()
            &&& 57 <= p.1
        },
        r is None ==> spec_parse_record(b@.skip(pos as int)) is None,
{
    proof {
        vstd::bytes::lemma_auto_spec_u64_to_from_le_bytes();
    }
    let ghost s = b@.skip(pos as int);
    let rem = b.len() - pos;
    if rem < 8 {
        return None;
    }
    let key_len64 = u64_from_le_bytes(slice_subrange(b, pos, pos + 8));
    proof {
        assert(b@.subrange(pos as int, pos as int + 8) =~= s.subrange(0, 8));
    }
    if rem < 16 {
        return None;
    }
    if key_len64 > (rem - 16) as u64 {
        return None;
    }
    let key_len = key_len64 as usize;
    let key_bytes = slice_subrange(b, pos + 8, pos + 8 + key_len);
    proof {
        assert(b@.subrange(pos + 8, pos + 8 + key_len as int) =~= s.subrange(8, 8 + key_len as int));
    }
    let key = match bytes_to_string(key_bytes) {
        Some(k) => k,
        None => {
            return None;
        },
    };
    let data_len64 = u64_from_le_bytes(slice_subrange(b, pos + 8 + key_len, pos + 16 + key_len));
    proof {
        assert(b@.subrange(pos + 8 + key_len as int, pos + 16 + key_len as int) =~= s.subrange(
            8 + key_len as int,
            16 + key_len as int,
        ));
    }
    if rem - 16 - key_len < 9 {
        return None;
    }
    if data_len64 > (rem - 25 - key_len) as u64 {
        return None;
    }
    let data_len = data_len64 as usize;
    let p = pos + 16 + key_len + data_len;
    let data = slice_to_vec(slice_subrange(b, pos + 16 + key_len, p));
    proof {
        assert(b@.subrange(pos + 16 + key_len as int, p as int) =~= s.subrange(
            16 + key_len as int,
            16 + key_len + data_len as int,
        ));
    }
    let flag = b[p];
    proof {
        assert(b@[p as int] == s[16 + key_len + data_len as int]);
    }
    let meta_len64 = u64_from_le_bytes(slice_subrange(b, p + 1, p + 9));
    proof {
        assert(b@.subrange(p + 1, p + 9) =~= s.subrange(
            16 + key_len + data_len + 1,
            16 + key_len + data_len + 9,
        ));
    }
    if flag != 0 && flag != 1 {
        return None;
    }
    if flag == 0 && meta_len64 != 0 {
        return None;
    }
    let after = rem - 16 - key_len - data_len - 9;
    if after < 32 {
        return None;
    }
    if meta_len64 > (after - 32) as u64 {
        return None;
    }
    let meta_len = meta_len64 as usize;
    let meta = if flag == 1 {
        let mv = slice_to_vec(slice_subrange(b, p + 9, p + 9 + meta_len));
        proof {
            assert(b@.subrange(p + 9, p + 9 + meta_len as int) =~= s.subrange(
                16 + key_len + data_len + 9,
                16 + key_len + data_len + 9 + meta_len as int,
            ));
        }
        Some(mv)
    } else {
        None
    };
    let checksum = bytes32_from_slice(slice_subrange(b, p + 9 + meta_len, p + 41 + meta_len));
    proof {
        assert(b@.subrange(p + 9 + meta_len as int, p + 41 + meta_len as int) =~= s.subrange(
            16 + key_len + data_len + 9 + meta_len as int,
            16 + key_len + data_len + 41 + meta_len as int,
        ));
    }
    let consumed = 57 + key_len + data_len + meta_len;
    let rec = Record { key, data, meta, checksum };
    proof {
        assert(spec_parse_record(s) matches Some(pr) && pr.0 =~= rec@ && pr.1 == consumed as int);
    }
    Some((rec, consumed))
}

/// Parses a whole shard object into its records and their frame offsets, or
/// `None` when the object is not a sequence of well-formed frames.
pub fn parse_shard(b: &[u8]) -> (r: Option<Vec<(Record, usize)>>)
    ensures
        r matches Some(v) ==> {
            &&& spec_parse_shard(b@) matches Some(s) && s.len() == v@.len()
            &&& forall|i: int|
                0 <= i < v@.len() ==> #[trigger] spec_parse_shard(b@)->Some_0[i] == (
                v@[i].0@,
                v@[i].1 as int,
                )
        },
        r is None ==> spec_parse_shard(b@) is None,
{
    let mut out: Vec<(Record, usize)> = Vec::new();
    let mut pos: usize = 0;
    loop
        invariant
            pos <= b@.len(),
            spec_parse_shard(b@) == (match spec_parse_shard_from(b@, pos as int) {
                Option::None => Option::None::<Seq<(SpecRecord, int)>>,
                Some(rest) => Some(
                    Seq::new(out@.len() as nat, |i: int| (out@[i].0@, out@[i].1 as int)) + rest,
                ),
            }),
        decreases b@.len() - pos,
    {
        if pos == b.len() {
            proof {
                assert(Seq::new(out@.len() as nat, |i: int| (out@[i].0@, out@[i].1 as int))
                    + Seq::<(SpecRecord, int)>::empty() =~= Seq::new(
                    out@.len() as nat,
                    |i: int| (out@[i].0@, out@[i].1 as int),
                ));
            }
            return Some(out);
        }
        match parse_record_at(b, pos) {
            None => {
                return None;
            },
            Some((rec, n)) => {
                let ghost old_out = out@;
                out.push((rec, pos));
                proof {
                    let f = Seq::new(
                        old_out.len() as nat,
                        |i: int| (old_out[i].0@, old_out[i].1 as int),
                    );
                    let g = Seq::new(out@.len() as nat, |i: int| (out@[i].0@, out@[i].1 as int));
                    assert(g =~= f.push((rec@, pos as int)));
                    if spec_parse_shard_from(b@, pos as int + n as int) is Some {
                        let rest = spec_parse_shard_from(b@, pos as int + n as int)->Some_0;
                        assert(f + (seq![(rec@, pos as int)] + rest) =~= g + rest);
                    }
                }
                pos = pos + n;
            },
        }
    }
}

} // verus!
