//! Tests of the storage contract against the in-memory backend, and of the
//! standalone index rebuild.

use shardstore::bucket::{Bucket, BucketConfig};
use shardstore::compress::CompressionType;
use shardstore::error::Error;
use shardstore::index::BucketIndex;
use shardstore::memory::MemoryStorageProvider;
use shardstore::storage::StorageProvider;

#[test]
fn test_storage_operations() {
    let mut provider = MemoryStorageProvider::new();

    assert!(provider.create_bucket("test-bucket").is_ok());
    assert!(provider.bucket_exists("test-bucket").unwrap());
    assert!(!provider.bucket_exists("absent-bucket").unwrap());

    assert!(provider.write("test-bucket", 0, "test-data".as_bytes()).is_ok());
    assert_eq!(provider.read("test-bucket", 0).unwrap(), b"test-data".to_vec());

    assert!(provider.write("test-bucket", 3, &[1, 2, 3]).is_ok());
    assert_eq!(provider.read("test-bucket", 3).unwrap(), vec![1, 2, 3]);

    let mut listed = provider.list("test-bucket").unwrap();
    listed.sort();
    assert_eq!(listed, vec![0, 3]);

    assert!(provider.delete("test-bucket", 0).is_ok());
    assert_eq!(provider.list("test-bucket").unwrap(), vec![3]);

    assert!(provider.delete_bucket("test-bucket").is_ok());
    assert!(!provider.bucket_exists("test-bucket").unwrap());
    assert_eq!(provider.list("test-bucket").unwrap(), Vec::<usize>::new());
}

#[test]
fn overwrite_replaces_object() {
    let mut provider = MemoryStorageProvider::new();
    assert!(provider.write("b", 0, b"one").is_ok());
    assert!(provider.write("b", 0, b"two").is_ok());
    assert_eq!(provider.read("b", 0).unwrap(), b"two".to_vec());
    assert_eq!(provider.list("b").unwrap(), vec![0]);
}

#[test]
fn reading_an_absent_object_is_a_backend_error() {
    let provider = MemoryStorageProvider::new();
    match provider.read("b", 0) {
        Err(Error::Io(_)) => {}
        _ => panic!("expected a backend error"),
    }
}

#[test]
fn build_reconstructs_the_index() {
    let provider = MemoryStorageProvider::new();
    let config = BucketConfig::new(CompressionType::NoCompression, 1).with_max_shard_size(200);
    let mut b = Bucket::new("bucket".to_string(), provider, config);
    assert!(b.write("a", &vec![5u8; 80], Some(b"meta-a".to_vec())).is_ok());
    assert!(b.write("b", &vec![6u8; 80], None).is_ok());
    assert!(b.write("a", &vec![7u8; 80], None).is_ok());
    assert_eq!(b.shard_count(), 3);

    let provider = b.into_provider();
    let ix = BucketIndex::build(&provider, "bucket", 4).unwrap();
    let a_entries = ix.get_entries("a").unwrap();
    assert_eq!(a_entries.len(), 2);
    assert_eq!(a_entries[0].shard_id, 0);
    assert_eq!(a_entries[1].shard_id, 2);
    assert_eq!(a_entries[0].size, 80);
    assert_eq!(ix.get_entries("b").unwrap().len(), 1);
    assert_eq!(ix.get_metadata("a").unwrap(), &b"meta-a".to_vec());
    assert!(ix.get_metadata("b").is_none());
}

#[test]
fn build_of_an_empty_bucket_is_empty() {
    let provider = MemoryStorageProvider::new();
    let ix = BucketIndex::build(&provider, "bucket", 1).unwrap();
    assert!(ix.get_entries("a").is_none());
    assert!(ix.get_metadata("a").is_none());
}

#[test]
fn shard_reader_fetches_and_verifies() {
    let provider = MemoryStorageProvider::new();
    let config = BucketConfig::new(CompressionType::Lz4, 1);
    let mut b = Bucket::new("bucket".to_string(), provider, config);
    assert!(b.write("k", &b"reader payload".to_vec(), None).is_ok());
    let entry = b.index().get_entries("k").unwrap()[0];
    let provider = b.into_provider();

    let reader = shardstore::shard::ShardReader::new(provider, "bucket".to_string(), 0);
    let whole = reader.read_all().unwrap();
    assert!(whole.len() > b"reader payload".len());
    assert_eq!(
        reader.read(&entry, CompressionType::Lz4).unwrap(),
        b"reader payload".to_vec()
    );
    // A stale entry pointing past the object is an integrity error.
    let mut stale = entry;
    stale.offset = whole.len() + 1;
    assert_eq!(
        reader.read(&stale, CompressionType::Lz4),
        Err(Error::Integrity)
    );
}

#[test]
fn checksum_helpers_agree_with_sha2() {
    let data = b"checksummed bytes";
    let digest = shardstore::checksum::compute_checksum(data);

    let mut hasher = <sha2::Sha256 as sha2::Digest>::new();
    sha2::Digest::update(&mut hasher, data);
    let expected: [u8; 32] = sha2::Digest::finalize(hasher).into();
    assert_eq!(digest, expected);

    assert!(shardstore::checksum::verify_checksum(data, &digest).is_ok());
    assert_eq!(
        shardstore::checksum::verify_checksum(b"other bytes", &digest),
        Err(Error::Integrity)
    );
}

#[test]
fn describe_names_every_error() {
    assert_eq!(Error::KeyNotFound.describe(), "key not found");
    assert_eq!(Error::Integrity.describe(), "checksum mismatch");
    assert_eq!(
        Error::UnsupportedCompression.describe(),
        "unsupported compression algorithm"
    );
    assert_eq!(
        Error::ShardCapacityExceeded.describe(),
        "record exceeds maximum shard size"
    );
}
