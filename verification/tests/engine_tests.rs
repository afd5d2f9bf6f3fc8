use agatedb::builder::Builder;
use agatedb::checksum::{calculate_checksum, decode_checksum, encode_checksum, verify_checksum};
use agatedb::error::Error;
use agatedb::format::{get_ts, key_with_ts, user_key};
use agatedb::opt::Options;
use agatedb::table::{parse_file_id, Table};
use agatedb::value::Value;
use agatedb::wal::{Entry, Wal};

fn key(prefix: &[u8], i: usize) -> Vec<u8> {
    [prefix, format!("{:04}", i).as_bytes()].concat()
}

fn test_options() -> Options {
    Options {
        block_size: 4 * 1024,
        table_size: 0,
    }
}

fn build_table(prefix: &[u8], n: usize, opts: Options) -> Vec<u8> {
    let mut builder = Builder::new(opts);
    for i in 0..n {
        let k = key(prefix, i);
        let v = i.to_string().into_bytes();
        builder
            .add(&key_with_ts(&k[..], 0), Value::new_with_meta(v, b'A', 0), 0)
            .unwrap();
    }
    builder.finish()
}

#[test]
fn test_out_of_order_key_rejected() {
    let mut builder = Builder::new(test_options());
    builder
        .add(&key_with_ts(b"b", 0), Value::new(b"1".to_vec()), 0)
        .unwrap();
    let r = builder.add(&key_with_ts(b"a", 0), Value::new(b"2".to_vec()), 0);
    assert!(matches!(r, Err(Error::OutOfOrderKey)));
    // The failed add leaves the builder usable; equal keys are permitted.
    builder
        .add(&key_with_ts(b"b", 0), Value::new(b"3".to_vec()), 0)
        .unwrap();
    builder
        .add(&key_with_ts(b"c", 0), Value::new(b"4".to_vec()), 0)
        .unwrap();
}

#[test]
fn test_empty_table_rejected() {
    let builder = Builder::new(test_options());
    let data = builder.finish();
    let r = Table::open_in_memory(data, 1, test_options());
    assert!(matches!(r, Err(Error::EmptyTable)));
}

#[test]
fn test_truncated_table_rejected() {
    let data = build_table(b"key", 10, test_options());
    for cut in [0usize, 1, 4, 7, data.len() - 1] {
        let r = Table::open_in_memory(data[..cut].to_vec(), 1, test_options());
        assert!(r.is_err());
    }
}

#[test]
fn test_parse_file_id() {
    assert_eq!(parse_file_id("123.sst").unwrap(), 123);
    assert_eq!(parse_file_id("0042.sst").unwrap(), 42);
    assert_eq!(parse_file_id("0.sst").unwrap(), 0);
    assert_eq!(
        parse_file_id("18446744073709551615.sst").unwrap(),
        u64::MAX
    );
    assert!(matches!(
        parse_file_id("18446744073709551616.sst"),
        Err(Error::InvalidFilename(_))
    ));
    assert!(matches!(parse_file_id("x.sst"), Err(Error::InvalidFilename(_))));
    assert!(matches!(parse_file_id("12x.sst"), Err(Error::InvalidFilename(_))));
    assert!(matches!(parse_file_id("123.txt"), Err(Error::InvalidFilename(_))));
    assert!(matches!(parse_file_id("123sst"), Err(Error::InvalidFilename(_))));
    assert!(matches!(parse_file_id(".sst"), Err(Error::InvalidFilename(_))));
    assert!(matches!(parse_file_id(""), Err(Error::InvalidFilename(_))));
    assert!(matches!(parse_file_id("12³.sst"), Err(Error::InvalidFilename(_))));
}

#[test]
fn test_checksum_round_trip_and_mismatch() {
    let data = b"the quick brown fox".to_vec();
    let cs = calculate_checksum(&data);
    let encoded = encode_checksum(&cs);
    assert_eq!(encoded.len(), 9);
    let decoded = decode_checksum(&encoded).unwrap();
    assert_eq!(decoded, cs);
    assert!(verify_checksum(&data, &cs).is_ok());
    // The digest depends on the content: any changed byte must be caught.
    for i in 0..data.len() {
        let mut corrupt = data.clone();
        corrupt[i] ^= 1;
        assert!(matches!(
            verify_checksum(&corrupt, &cs),
            Err(Error::ChecksumMismatch)
        ));
    }
    assert!(decode_checksum(b"12345678").is_err());
    assert!(matches!(decode_checksum(b""), Err(Error::DecodeError)));
}

#[test]
fn test_single_bit_corruption_detected() {
    let opts = Options {
        block_size: 256,
        table_size: 0,
    };
    let data = build_table(b"key", 12, opts);
    // Check that the fresh table passes the whole-table verification.
    let table = Table::open_in_memory(data.clone(), 1, opts).unwrap();
    table.verify_checksum().unwrap();
    // Flip every single bit of the serialized table in turn: either the
    // open fails, or verifying the blocks does.
    for pos in 0..data.len() {
        for bit in 0..8 {
            let mut corrupt = data.clone();
            corrupt[pos] ^= 1u8 << bit;
            match Table::open_in_memory(corrupt, 1, opts) {
                Err(_) => {}
                Ok(t) => {
                    assert!(
                        t.verify_checksum().is_err(),
                        "corruption at byte {} bit {} went unnoticed",
                        pos,
                        bit
                    );
                }
            }
        }
    }
}

#[test]
fn test_block_size_bound() {
    // Every finalized block stays within the block size plus the last
    // entry and the framing overhead.
    let opts = Options {
        block_size: 1024,
        table_size: 0,
    };
    let n = 2000;
    let data = build_table(b"key", n, opts);
    let table = Table::open_in_memory(data, 1, opts).unwrap();
    assert!(table.offsets_length() > 1);
    let max_entry = (3 + 4 + 8) + 4; // longest internal key plus value digits
    for i in 0..table.offsets_length() {
        let bo = table.offsets(i).unwrap();
        assert!((bo.len as usize) <= 1024 + max_entry + 64);
    }
}

#[test]
fn test_wal_write_entry() {
    let mut wal = Wal::open(7, "7.wal".to_string());
    assert_eq!(wal.pending().len(), 0);
    let entry = Entry {
        key: b"alpha".to_vec(),
        value: b"beta!".to_vec(),
    };
    wal.write_entry(&entry).unwrap();
    let bytes = wal.pending().clone();
    assert_eq!(bytes.len(), 4 + 4 + 5 + 5 + 4);
    assert_eq!(&bytes[0..4], &[0, 0, 0, 5]);
    assert_eq!(&bytes[4..8], &[0, 0, 0, 5]);
    assert_eq!(&bytes[8..13], b"alpha");
    assert_eq!(&bytes[13..18], b"beta!");
    let expected = crc32c::crc32c(&bytes[0..18]);
    assert_eq!(&bytes[18..22], &expected.to_be_bytes());
    let flushed = wal.take_pending();
    assert_eq!(flushed, bytes);
    assert_eq!(wal.pending().len(), 0);
}

#[test]
fn test_internal_key_codec() {
    let k = key_with_ts(b"user", 77);
    assert_eq!(k.len(), 12);
    assert_eq!(user_key(&k), b"user");
    assert_eq!(get_ts(&k), 77);
    // Timestamps are big-endian, so equal user keys order by timestamp.
    let older = key_with_ts(b"user", 5);
    let newer = key_with_ts(b"user", 6);
    assert!(older < newer);
    // A key too short to carry a timestamp reads as timestamp 0.
    assert_eq!(get_ts(b"abc"), 0);
}

#[test]
fn test_table_metadata() {
    let opts = test_options();
    let data = build_table(b"key", 100, opts);
    let size = data.len() as u64;
    let table = Table::open_in_memory(data, 9, opts).unwrap();
    assert_eq!(table.id(), 9);
    assert_eq!(table.key_count(), 100);
    assert_eq!(table.size(), size);
    assert_eq!(table.max_version(), 0);
    assert_eq!(table.bloom_filter_size(), 0);
    assert!(table.index_size() > 0);
    assert!(table.is_in_memory());
    assert_eq!(table.filename(), "<memtable>");
    assert!(!Table::does_not_have(42));
    assert_eq!(table.smallest(), &key_with_ts(&key(b"key", 0), 0));
    assert_eq!(table.biggest(), &key_with_ts(&key(b"key", 99), 0));
}

#[test]
fn test_error_describe() {
    assert_eq!(Error::OutOfOrderKey.describe(), "out of order key");
    assert_eq!(Error::ChecksumMismatch.describe(), "checksum mismatch");
    assert_eq!(Error::EmptyTable.describe(), "empty table");
    assert_eq!(Error::DecodeError.describe(), "decode error");
    assert_eq!(
        Error::InvalidFilename("x".to_string()).describe(),
        "invalid filename"
    );
    assert_eq!(Error::TableRead("y".to_string()).describe(), "table read");
}

#[test]
fn test_estimated_size_grows() {
    let mut builder = Builder::new(test_options());
    let before = builder.estimated_size();
    builder
        .add(&key_with_ts(b"aaa", 0), Value::new(vec![1u8; 64]), 0)
        .unwrap();
    let after = builder.estimated_size();
    assert!(after > before);
    assert_eq!(builder.key_count(), 1);
}
