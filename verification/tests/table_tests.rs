use agatedb::builder::Builder;
use agatedb::format::{key_with_ts, user_key};
use agatedb::iterator::ITERATOR_REVERSED;
use agatedb::opt::Options;
use agatedb::table::Table;
use agatedb::value::Value;

fn key(prefix: &[u8], i: usize) -> Vec<u8> {
    [prefix, format!("{:04}", i).as_bytes()].concat()
}

fn key_isize(prefix: &[u8], i: isize) -> Vec<u8> {
    [prefix, format!("{:04}", i).as_bytes()].concat()
}

#[test]
fn test_generate_key() {
    assert_eq!(key(b"key", 233), b"key0233".to_vec());
}

fn get_test_table_options() -> Options {
    Options {
        block_size: 4 * 1024,
        table_size: 0,
    }
}

fn build_test_table(prefix: &[u8], n: usize, mut opts: Options) -> Table {
    if opts.block_size == 0 {
        opts.block_size = 4 * 1024;
    }
    assert!(n <= 10000);

    let mut kv_pairs = vec![];

    for i in 0..n {
        let k = key(prefix, i);
        let v = i.to_string().into_bytes();
        kv_pairs.push((k, v));
    }

    build_table(kv_pairs, opts)
}

fn build_table(mut kv_pairs: Vec<(Vec<u8>, Vec<u8>)>, opts: Options) -> Table {
    let mut builder = Builder::new(opts);

    kv_pairs.sort_by(|x, y| x.0.cmp(&y.0));

    for (k, v) in kv_pairs {
        builder
            .add(&key_with_ts(&k[..], 0), Value::new_with_meta(v, b'A', 0), 0)
            .unwrap();
    }
    let data = builder.finish();

    Table::open_in_memory(data, 1, opts).unwrap()
}

#[test]
fn test_table_iterator() {
    for n in 99..=101 {
        let opts = get_test_table_options();
        let table = build_test_table(b"key", n, opts);
        let mut it = table.new_iterator(0);
        it.rewind();
        let mut count = 0;
        while it.valid() {
            let v = it.value();
            let k = it.key();
            assert_eq!(count.to_string().into_bytes(), v.value);
            assert_eq!(&key_with_ts(&key(b"key", count)[..], 0), k);
            count += 1;
            it.next();
        }
        assert_eq!(count, n);
    }
}

#[test]
fn test_seek_to_first() {
    for n in vec![99, 100, 101, 199, 200, 250, 9999, 10000] {
        let opts = get_test_table_options();
        let table = build_test_table(b"key", n, opts);
        let mut it = table.new_iterator(0);
        it.seek_to_first();
        assert!(it.valid());
        assert_eq!(it.value().value, b"0".to_vec());
        assert_eq!(it.value().meta, b'A');
    }
}

#[test]
fn test_seek_to_last() {
    for n in vec![99, 100, 101, 199, 200, 250, 9999, 10000] {
        let opts = get_test_table_options();
        let table = build_test_table(b"key", n, opts);
        let mut it = table.new_iterator(0);
        it.seek_to_last();
        assert!(it.valid());
        assert_eq!(it.value().value, (n - 1).to_string().into_bytes());
        assert_eq!(it.value().meta, b'A');
        it.prev();
        assert!(it.valid());
        assert_eq!(it.value().value, (n - 2).to_string().into_bytes());
        assert_eq!(it.value().meta, b'A');
    }
}

#[test]
fn test_seek() {
    let opts = get_test_table_options();
    let table = build_test_table(b"k", 10000, opts);
    let mut it = table.new_iterator(0);

    let data = vec![
        (b"abc".to_vec(), true, b"k0000".to_vec()),
        (b"k0100".to_vec(), true, b"k0100".to_vec()),
        (b"k0100b".to_vec(), true, b"k0101".to_vec()),
        (b"k1234".to_vec(), true, b"k1234".to_vec()),
        (b"k1234b".to_vec(), true, b"k1235".to_vec()),
        (b"k9999".to_vec(), true, b"k9999".to_vec()),
        (b"z".to_vec(), false, b"".to_vec()),
    ];

    for (input, valid, out) in data {
        it.seek(&key_with_ts(input.as_slice(), 0));
        assert_eq!(it.valid(), valid);
        if !valid {
            continue;
        }
        assert_eq!(user_key(it.key()).to_vec(), out);
    }
}

#[test]
fn test_seek_for_prev() {
    let opts = get_test_table_options();
    let table = build_test_table(b"k", 10000, opts);
    let mut it = table.new_iterator(0);

    let data = vec![
        ("abc", false, ""),
        ("k0100", true, "k0100"),
        ("k0100b", true, "k0100"), // Test case where we jump to next block.
        ("k1234", true, "k1234"),
        ("k1234b", true, "k1234"),
        ("k9999", true, "k9999"),
        ("z", true, "k9999"),
    ];

    for (input, valid, out) in data {
        it.seek_for_prev(&key_with_ts(input.as_bytes(), 0));
        assert_eq!(it.valid(), valid);
        if !valid {
            continue;
        }
        assert_eq!(user_key(it.key()).to_vec(), out.as_bytes().to_vec());
    }
}

#[test]
fn test_iterate_from_start() {
    for n in vec![99, 100, 101, 199, 200, 250, 9999, 10000] {
        let opts = get_test_table_options();
        let table = build_test_table(b"key", n, opts);
        let mut it = table.new_iterator(0);
        it.reset();
        it.seek_to_first();
        assert!(it.valid());

        let mut count = 0;
        while it.valid() {
            let v = it.value();
            assert_eq!(count.to_string().into_bytes(), v.value);
            assert_eq!(b'A', v.meta);
            it.next();
            count += 1;
        }
    }
}

#[test]
fn test_iterate_from_end() {
    for n in vec![99, 100, 101, 199, 200, 250, 9999, 10000] {
        let opts = get_test_table_options();
        let table = build_test_table(b"key", n, opts);
        let mut it = table.new_iterator(0);
        it.reset();
        it.seek(&key_with_ts(b"zzzzzz" as &[u8], 0));
        assert!(!it.valid());

        for i in (0..n).rev() {
            it.prev();
            assert!(it.valid());
            let v = it.value();
            assert_eq!(i.to_string().into_bytes(), v.value);
            assert_eq!(b'A', v.meta);
        }
        it.prev();
        assert!(!it.valid())
    }
}

#[test]
fn test_table() {
    let opts = get_test_table_options();
    let table = build_test_table(b"key", 10000, opts);
    let mut it = table.new_iterator(0);
    let mut kid = 1010;
    let seek = key_with_ts(&key(b"key", kid)[..], 0);
    it.seek(&seek);
    while it.valid() {
        assert_eq!(user_key(it.key()), &key(b"key", kid)[..]);
        kid += 1;
        it.next();
    }
    assert_eq!(kid, 10000);

    it.seek(&key_with_ts(&key(b"key", 99999)[..], 0));
    assert!(!it.valid());

    it.seek(&key_with_ts(&key_isize(b"key", -1)[..], 0));
    assert!(it.valid());

    assert_eq!(user_key(it.key()), key(b"key", 0));
}

#[test]
fn test_iterate_back_and_forth() {
    let opts = get_test_table_options();
    let table = build_test_table(b"key", 10000, opts);
    let mut it = table.new_iterator(0);
    let seek = key_with_ts(&key(b"key", 1010)[..], 0);

    it.seek(&seek);
    assert!(it.valid());
    assert_eq!(it.key(), &seek);

    it.prev();
    it.prev();
    assert!(it.valid());
    assert_eq!(user_key(it.key()), &key(b"key", 1008)[..]);

    it.next();
    it.next();
    assert!(it.valid());
    assert_eq!(user_key(it.key()), &key(b"key", 1010)[..]);

    it.seek(&key_with_ts(&key(b"key", 2000)[..], 0));
    assert!(it.valid());
    assert_eq!(user_key(it.key()), &key(b"key", 2000)[..]);

    it.prev();
    assert!(it.valid());
    assert_eq!(user_key(it.key()), &key(b"key", 1999)[..]);

    it.seek_to_first();
    assert!(it.valid());
    assert_eq!(user_key(it.key()), &key(b"key", 0)[..]);
}

#[test]
fn test_uni_iterator() {
    let opts = get_test_table_options();
    let table = build_test_table(b"key", 10000, opts);
    {
        let mut it = table.new_iterator(0);
        it.rewind();
        let mut count = 0;
        while it.valid() {
            let v = it.value();
            assert_eq!(count.to_string().into_bytes(), v.value);
            assert_eq!(b'A', v.meta);
            it.next();
            count += 1;
        }
        assert_eq!(count, 10000);
    }
    {
        let mut it = table.new_iterator(ITERATOR_REVERSED);
        it.rewind();
        let mut count = 0;
        while it.valid() {
            let v = it.value();
            assert_eq!((10000 - 1 - count).to_string().into_bytes(), v.value);
            assert_eq!(b'A', v.meta);
            it.next();
            count += 1;
        }
        assert_eq!(count, 10000);
    }
}

fn value(i: usize) -> Vec<u8> {
    // The decimal for `i`, left-padded with zeros to 1 MiB.
    let digits = i.to_string().into_bytes();
    let mut v = vec![b'0'; (1 << 20) - digits.len()];
    v.extend_from_slice(&digits);
    v
}

#[test]
fn test_table_big_values() {
    let n: usize = 100;
    let opts = Options {
        block_size: 4 * 1024,
        table_size: (n as u64) * (1 << 20),
    };
    let mut builder = Builder::new(opts);

    for i in 0..n {
        let key = key_with_ts(&key(b"", i)[..], i as u64 + 1);
        let vs = Value::new(value(i));
        builder.add(&key, vs, 0).unwrap();
    }

    let table = Table::open_in_memory(builder.finish(), 1, opts).unwrap();

    let mut it = table.new_iterator(0);
    assert!(it.valid());

    let mut count = 0;
    it.rewind();

    while it.valid() {
        assert_eq!(key(b"", count), user_key(it.key()));
        assert_eq!(value(count), it.value().value);
        it.next();
        count += 1;
    }

    assert!(!it.valid());
    assert_eq!(n, count);
    assert_eq!(n as u64, table.max_version());
}
