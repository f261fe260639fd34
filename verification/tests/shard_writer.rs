//! Tests of the shard writer: append arithmetic, capacity enforcement, and
//! the recorded checksums.

use shardstore::memory::MemoryStorageProvider;
use shardstore::shard::{shard_size, ShardWriter};

#[test]
fn test_shard_writer_new() {
    let provider = MemoryStorageProvider::new();
    let writer = ShardWriter::new(0, provider);
    assert_eq!(writer.current_size, 0);
    assert!(writer.entries.is_empty());
}

#[test]
fn test_write_success_no_metadata() {
    let data = b"some_data";
    let key = "key1";

    let provider = MemoryStorageProvider::new();
    let mut writer = ShardWriter::new(0, provider);

    assert!(writer.write(key, data, None).is_ok());
    assert_eq!(writer.current_size, 9);
    assert_eq!(writer.entries.len(), 1);
    assert_eq!(writer.entries[0].offset, 0);
    assert_eq!(writer.entries[0].size, 9);
}

#[test]
fn test_write_success_with_metadata() {
    let data = b"some_data";
    let metadata = b"metadata";
    let key = "key1";

    let provider = MemoryStorageProvider::new();
    let mut writer = ShardWriter::new(0, provider);

    assert!(writer.write(key, data, Some(metadata)).is_ok());
    assert_eq!(writer.current_size, data.len() + metadata.len());
    assert_eq!(writer.entries.len(), 1);
    assert_eq!(writer.entries[0].offset, 0);
    assert_eq!(writer.entries[0].size, data.len() + metadata.len());
}

#[test]
fn test_write_exceeds_shard_size() {
    let provider = MemoryStorageProvider::new();
    let mut writer = ShardWriter::new(0, provider);
    let data = vec![0; shard_size() + 1];
    let key = "key1";

    assert!(writer.write(key, &data, None).is_err());
}

#[test]
fn test_write_multiple_entries() {
    let data1 = b"some_data";
    let data2 = b"more_data";
    let key1 = "key1";
    let key2 = "key2";

    let provider = MemoryStorageProvider::new();
    let mut writer = ShardWriter::new(0, provider);

    assert!(writer.write(key1, data1, None).is_ok());
    assert_eq!(writer.current_size, 9);
    assert_eq!(writer.entries.len(), 1);

    assert!(writer.write(key2, data2, None).is_ok());
    assert_eq!(writer.current_size, 18);
    assert_eq!(writer.entries.len(), 2);
    assert_eq!(writer.entries[0].offset, 0);
    assert_eq!(writer.entries[0].size, 9);
    assert_eq!(writer.entries[1].offset, 9);
    assert_eq!(writer.entries[1].size, 9);
}

#[test]
fn test_write_with_large_metadata() {
    let data = b"some_data";
    let metadata_size = shard_size() - data.len();
    let metadata = vec![0; metadata_size];
    let key = "key1";

    let provider = MemoryStorageProvider::new();
    let mut writer = ShardWriter::new(0, provider);

    let result = writer.write(key, data, Some(&metadata));
    assert!(result.is_ok());
    assert_eq!(writer.current_size, data.len() + metadata_size);
    assert_eq!(writer.entries.len(), 1);

    let additional_data = b"more_data";
    let key2 = "key2";
    assert!(writer.write(key2, additional_data, None).is_err());
}

#[test]
fn test_write_checksum() {
    let data = b"some_data";
    let key = "key1";

    let provider = MemoryStorageProvider::new();
    let mut writer = ShardWriter::new(0, provider);

    assert!(writer.write(key, data, None).is_ok());

    let mut hasher = <sha2::Sha256 as sha2::Digest>::new();
    sha2::Digest::update(&mut hasher, data);
    let expected_checksum: [u8; 32] = sha2::Digest::finalize(hasher).into();

    assert_eq!(writer.entries[0].checksum, expected_checksum);
}
