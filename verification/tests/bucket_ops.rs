//! Tests of the bucket protocol: round trips under every supported
//! compression algorithm, integrity on corruption, capacity behaviour,
//! metadata overwrite, delete completeness, and rebuild equivalence.

use shardstore::bucket::{Bucket, BucketConfig};
use shardstore::compress::CompressionType;
use shardstore::error::Error;
use shardstore::memory::MemoryStorageProvider;
use shardstore::storage::StorageProvider;

fn fresh_bucket(compression: CompressionType) -> Bucket<MemoryStorageProvider> {
    let provider = MemoryStorageProvider::new();
    let config = BucketConfig::new(compression, 1);
    Bucket::new("bucket".to_string(), provider, config)
}

#[test]
fn round_trip_no_compression() {
    let mut b = fresh_bucket(CompressionType::NoCompression);
    assert!(b.write("k", &b"payload bytes".to_vec(), None).is_ok());
    assert_eq!(b.read("k").unwrap(), b"payload bytes".to_vec());
}

#[test]
fn round_trip_gzip() {
    let mut b = fresh_bucket(CompressionType::Gzip);
    let data = b"a blob that gzip can shrink: aaaaaaaaaaaaaaaaaaaaaaaaaaaaaa".to_vec();
    assert!(b.write("k", &data, None).is_ok());
    assert_eq!(b.read("k").unwrap(), data);
}

#[test]
fn round_trip_lz4() {
    let mut b = fresh_bucket(CompressionType::Lz4);
    let data = b"a blob that lz4 can shrink: bbbbbbbbbbbbbbbbbbbbbbbbbbbbbb".to_vec();
    assert!(b.write("k", &data, None).is_ok());
    assert_eq!(b.read("k").unwrap(), data);
}

#[test]
fn round_trip_empty_blob() {
    let mut b = fresh_bucket(CompressionType::NoCompression);
    assert!(b.write("k", &Vec::new(), None).is_ok());
    assert_eq!(b.read("k").unwrap(), Vec::<u8>::new());
}

#[test]
fn corruption_fails_with_integrity_error() {
    let mut b = fresh_bucket(CompressionType::NoCompression);
    assert!(b.write("k", &b"hello".to_vec(), None).is_ok());

    // The frame is [key len: 8][key: 1]["hello" len: 8][data: 5]...; flip a
    // data byte, leaving the frame parsable.
    let provider = b.provider_mut();
    let mut object = provider.read("bucket", 0).unwrap();
    object[17] ^= 0xff;
    assert!(provider.write("bucket", 0, &object).is_ok());

    assert_eq!(b.read("k"), Err(Error::Integrity));
}

#[test]
fn capacity_rolls_to_new_shards() {
    let provider = MemoryStorageProvider::new();
    let config = BucketConfig::new(CompressionType::NoCompression, 1).with_max_shard_size(200);
    let mut b = Bucket::new("bucket".to_string(), provider, config);

    // Each record frames to 57 + 2 (key) + 80 (data) = 139 bytes, so every
    // record needs a shard of its own under a 200-byte capacity.
    for i in 0..4 {
        let key = format!("k{}", i);
        assert!(b.write(key.as_str(), &vec![7u8; 80], None).is_ok());
    }
    assert_eq!(b.shard_count(), 4);
    for i in 0..4 {
        let key = format!("k{}", i);
        assert_eq!(b.read(key.as_str()).unwrap(), vec![7u8; 80]);
    }
}

#[test]
fn oversized_record_is_rejected() {
    let provider = MemoryStorageProvider::new();
    let config = BucketConfig::new(CompressionType::NoCompression, 1).with_max_shard_size(100);
    let mut b = Bucket::new("bucket".to_string(), provider, config);

    // 57 + 1 + 80 > 100: this record can never fit any shard.
    assert_eq!(
        b.write("k", &vec![0u8; 80], None),
        Err(Error::ShardCapacityExceeded)
    );
    assert_eq!(b.shard_count(), 0);
}

#[test]
fn metadata_last_write_wins() {
    let mut b = fresh_bucket(CompressionType::NoCompression);
    assert!(b.write("k", &b"one".to_vec(), Some(b"first".to_vec())).is_ok());
    assert_eq!(b.get_metadata("k").unwrap(), Some(b"first".to_vec()));
    assert!(b.write("k", &b"two".to_vec(), Some(b"second".to_vec())).is_ok());
    assert_eq!(b.get_metadata("k").unwrap(), Some(b"second".to_vec()));
    // A write without metadata leaves the previous metadata in place.
    assert!(b.write("k", &b"three".to_vec(), None).is_ok());
    assert_eq!(b.get_metadata("k").unwrap(), Some(b"second".to_vec()));
}

#[test]
fn delete_completeness() {
    let mut b = fresh_bucket(CompressionType::NoCompression);
    assert!(b.write("k", &b"data".to_vec(), Some(b"meta".to_vec())).is_ok());
    assert!(b.delete("k").is_ok());
    assert_eq!(b.read("k"), Err(Error::KeyNotFound));
    assert_eq!(b.get_metadata("k").unwrap(), None);
    // The shard was wholly owned by the key, so its object is gone too.
    assert_eq!(b.provider().list("bucket").unwrap(), Vec::<usize>::new());
}

#[test]
fn delete_of_an_absent_key_succeeds() {
    let mut b = fresh_bucket(CompressionType::NoCompression);
    assert!(b.write("other", &b"data".to_vec(), None).is_ok());
    assert!(b.delete("missing").is_ok());
    assert!(b.delete("missing").is_ok());
    // Nothing left the backend: the other key's shard object is untouched.
    assert_eq!(b.provider().list("bucket").unwrap(), vec![0]);
    assert_eq!(b.read("other").unwrap(), b"data".to_vec());
}

#[test]
fn delete_keeps_shared_shards() {
    let mut b = fresh_bucket(CompressionType::NoCompression);
    assert!(b.write("a", &b"one".to_vec(), None).is_ok());
    assert!(b.write("b", &b"two".to_vec(), None).is_ok());
    // Both records share shard 0; deleting "a" must not break "b".
    assert!(b.delete("a").is_ok());
    assert_eq!(b.read("a"), Err(Error::KeyNotFound));
    assert_eq!(b.read("b").unwrap(), b"two".to_vec());
    assert_eq!(b.provider().list("bucket").unwrap(), vec![0]);
}

#[test]
fn rebuild_equivalence() {
    let mut b = fresh_bucket(CompressionType::Gzip);
    assert!(b.write("a", &b"hello".to_vec(), None).is_ok());
    assert!(b.write("a", &b" world".to_vec(), None).is_ok());
    assert!(b.write("b", &b"other".to_vec(), Some(b"meta-b".to_vec())).is_ok());

    let provider = b.into_provider();
    let config = BucketConfig::new(CompressionType::Gzip, 2);
    let rb = Bucket::recover("bucket".to_string(), provider, config).unwrap();

    assert_eq!(rb.read("a").unwrap(), b"hello world".to_vec());
    assert_eq!(rb.read("b").unwrap(), b"other".to_vec());
    assert_eq!(rb.get_metadata("b").unwrap(), Some(b"meta-b".to_vec()));
    assert_eq!(rb.index().get_entries("a").unwrap().len(), 2);
}

#[test]
fn recover_rejects_unparsable_shard() {
    let mut b = fresh_bucket(CompressionType::NoCompression);
    assert!(b.write("k", &b"hello".to_vec(), None).is_ok());
    let mut provider = b.into_provider();
    // Truncate the object so no whole frame parses.
    let object = provider.read("bucket", 0).unwrap();
    assert!(provider.write("bucket", 0, &object[..10]).is_ok());
    let config = BucketConfig::new(CompressionType::NoCompression, 1);
    match Bucket::recover("bucket".to_string(), provider, config) {
        Err(Error::Index(_)) => {}
        other => panic!("expected an index error, got {:?}", other.is_ok()),
    }
}

#[test]
fn two_writes_one_key() {
    let mut b = fresh_bucket(CompressionType::NoCompression);
    assert!(b.write("a", &b"hello".to_vec(), None).is_ok());
    assert!(b.write("a", &b" world".to_vec(), None).is_ok());
    assert_eq!(b.index().get_entries("a").unwrap().len(), 2);
    assert_eq!(b.read("a").unwrap(), b"hello world".to_vec());
}

#[test]
fn multibyte_keys_survive_recovery() {
    let mut b = fresh_bucket(CompressionType::NoCompression);
    let key = "clé-ключ-鍵";
    assert!(b.write(key, &b"value".to_vec(), Some(b"m".to_vec())).is_ok());

    let provider = b.into_provider();
    let config = BucketConfig::new(CompressionType::NoCompression, 1);
    let rb = Bucket::recover("bucket".to_string(), provider, config).unwrap();
    assert_eq!(rb.read(key).unwrap(), b"value".to_vec());
    assert_eq!(rb.get_metadata(key).unwrap(), Some(b"m".to_vec()));
    assert_eq!(rb.read("cle"), Err(Error::KeyNotFound));
}

#[test]
fn default_config_is_plain() {
    let config = BucketConfig::default();
    assert!(matches!(config.compression, CompressionType::NoCompression));
    assert_eq!(config.parallelism, 1);
    assert_eq!(config.max_shard_size, shardstore::shard::shard_size());
}

#[test]
fn unsupported_compression_is_rejected() {
    let mut b = fresh_bucket(CompressionType::Zstd);
    assert_eq!(
        b.write("k", &b"data".to_vec(), None),
        Err(Error::UnsupportedCompression)
    );
    // No shard object was created as a side effect.
    assert_eq!(b.shard_count(), 0);
    assert_eq!(b.provider().list("bucket").unwrap(), Vec::<usize>::new());

    let mut s = fresh_bucket(CompressionType::Snappy);
    assert_eq!(
        s.write("k", &b"data".to_vec(), None),
        Err(Error::UnsupportedCompression)
    );
}

#[test]
fn interleaved_writers_never_leave_half_entries() {
    // Two logical writers alternating under the exclusive index lock — here
    // the exclusive borrow — always leave fully formed entry sequences.
    let mut b = fresh_bucket(CompressionType::NoCompression);
    for i in 0..3 {
        assert!(b.write("shared", &vec![1u8; 10 + i], None).is_ok());
        assert!(b.write("shared", &vec![2u8; 20 + i], None).is_ok());
    }
    let entries = b.index().get_entries("shared").unwrap();
    assert_eq!(entries.len(), 6);
    for e in entries {
        assert!(e.size > 0);
    }
    let blob = b.read("shared").unwrap();
    assert_eq!(blob.len(), 10 + 20 + 11 + 21 + 12 + 22);
}

#[test]
fn multi_chunk_read_preserves_order() {
    let mut b = fresh_bucket(CompressionType::Lz4);
    let parts: Vec<Vec<u8>> = vec![
        b"first ".to_vec(),
        b"second ".to_vec(),
        b"third".to_vec(),
    ];
    for p in &parts {
        assert!(b.write("k", p, None).is_ok());
    }
    assert_eq!(b.read("k").unwrap(), b"first second third".to_vec());
}
