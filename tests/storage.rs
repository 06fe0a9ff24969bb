use zarrs::bytes::ByteRange;
use zarrs::chunk_key_encoding::{ChunkKeyEncoding, ChunkKeyEncodingStyle, ChunkKeySeparator};
use zarrs::storage::{
    data_key, erase_chunk, erase_values, get_partial_values_batched_by_key, meta_key,
    retrieve_chunk, retrieve_partial_values, set_partial_values, store_chunk, MemoryStore,
    NodePath, ReadableStorageTraits, StoreKey, StoreKeyRange, StoreKeyStartValue,
    StoreKeysPrefixes, StorePrefix, WritableStorageTraits,
};

fn key(s: &str) -> StoreKey {
    StoreKey::new(s).unwrap()
}

/// Reads chunk coordinates back from a key component written by `encoding`.
fn decode_key(encoding: &ChunkKeyEncoding, component: &str) -> Vec<u64> {
    let sep = match encoding.separator {
        ChunkKeySeparator::Slash => '/',
        ChunkKeySeparator::Dot => '.',
    };
    let parts: Vec<&str> = component.split(sep).collect();
    let parts = match encoding.style {
        ChunkKeyEncodingStyle::Default => &parts[1..],
        ChunkKeyEncodingStyle::V2 => &parts[..],
    };
    parts.iter().map(|p| p.parse().unwrap()).collect()
}

#[test]
fn key_encoding_default_and_v2() {
    assert_eq!(ChunkKeyEncoding::new_default().encode(&[1, 23, 45]), "c/1/23/45");
    assert_eq!(ChunkKeyEncoding::new_default().encode(&[]), "c");
    assert_eq!(ChunkKeyEncoding::new_v2().encode(&[1, 23, 45]), "1.23.45");
    assert_eq!(ChunkKeyEncoding::new_v2().encode(&[]), "0");
    let dotted =
        ChunkKeyEncoding { style: ChunkKeyEncodingStyle::Default, separator: ChunkKeySeparator::Dot };
    assert_eq!(dotted.encode(&[0, u64::MAX]), "c.0.18446744073709551615");
}

#[test]
fn key_encoding_round_trip() {
    let encodings = [
        ChunkKeyEncoding { style: ChunkKeyEncodingStyle::Default, separator: ChunkKeySeparator::Slash },
        ChunkKeyEncoding { style: ChunkKeyEncodingStyle::Default, separator: ChunkKeySeparator::Dot },
        ChunkKeyEncoding { style: ChunkKeyEncodingStyle::V2, separator: ChunkKeySeparator::Slash },
        ChunkKeyEncoding { style: ChunkKeyEncodingStyle::V2, separator: ChunkKeySeparator::Dot },
    ];
    let coords: Vec<Vec<u64>> =
        vec![vec![0], vec![7, 0, 10], vec![123456789, 1], vec![u64::MAX, 9, 10, 99, 100]];
    for encoding in &encodings {
        for c in &coords {
            assert_eq!(&decode_key(encoding, &encoding.encode(c)), c);
        }
    }
    assert_eq!(decode_key(&encodings[0], &encodings[0].encode(&[])), Vec::<u64>::new());
}

#[test]
fn store_keys_and_paths() {
    assert!(StoreKey::new("a/b/zarr.json").is_ok());
    assert!(StoreKey::new("").is_err());
    assert!(StoreKey::new("/a").is_err());
    assert!(StoreKey::new("a/").is_err());
    assert!(StoreKey::new("a//b").is_err());
    assert!(StorePrefix::new("").is_ok());
    assert!(StorePrefix::new("a/b/").is_ok());
    assert!(StorePrefix::new("a/b").is_err());
    assert_eq!(StorePrefix::root().as_str(), "");
    assert!(NodePath::new("/").is_ok());
    assert!(NodePath::new("/a/b").is_ok());
    assert!(NodePath::new("a/b").is_err());
    assert!(NodePath::new("/a/").is_err());
    assert_eq!(meta_key(&NodePath::root()).as_str(), "zarr.json");
    assert_eq!(meta_key(&NodePath::new("/a/b").unwrap()).as_str(), "a/b/zarr.json");
    let encoding = ChunkKeyEncoding::new_default();
    assert_eq!(data_key(&NodePath::new("/a/b").unwrap(), &[1, 2], &encoding).as_str(), "a/b/c/1/2");
    assert_eq!(data_key(&NodePath::root(), &[3], &ChunkKeyEncoding::new_v2()).as_str(), "3");
}

#[test]
fn memory_store_operations() {
    let mut store = MemoryStore::new();
    let k = key("a/b");
    assert_eq!(store.get(&k).unwrap(), None);
    store.set(&k, &[0, 1, 2, 3, 4, 5]).unwrap();
    assert_eq!(store.get(&k).unwrap(), Some(vec![0, 1, 2, 3, 4, 5]));
    assert_eq!(store.size_key(&k).unwrap(), Some(6));
    let parts = store
        .get_partial_values_key(&k, &[ByteRange::FromStart(1, Some(2)), ByteRange::Suffix(1)])
        .unwrap()
        .unwrap();
    assert_eq!(parts, vec![vec![1, 2], vec![5]]);
    assert!(store.get_partial_values_key(&k, &[ByteRange::FromStart(5, Some(2))]).is_err());
    assert_eq!(store.get_partial_values_key(&key("x"), &[]).unwrap(), None);
    assert!(store.erase(&k).unwrap());
    assert!(!store.erase(&k).unwrap());
    assert_eq!(store.size_key(&k).unwrap(), None);
}

#[test]
fn storage_chunk_functions() {
    let mut store = MemoryStore::new();
    let path = NodePath::new("/arr").unwrap();
    let encoding = ChunkKeyEncoding::new_default();
    store_chunk(&mut store, &path, &[0, 1], &encoding, &[9, 8, 7]).unwrap();
    assert_eq!(store.get(&key("arr/c/0/1")).unwrap(), Some(vec![9, 8, 7]));
    assert_eq!(retrieve_chunk(&store, &path, &[0, 1], &encoding).unwrap(), Some(vec![9, 8, 7]));
    assert_eq!(
        retrieve_partial_values(&store, &path, &[0, 1], &encoding, &[ByteRange::FromStart(1, None)])
            .unwrap(),
        Some(vec![vec![8, 7]])
    );
    assert!(erase_chunk(&mut store, &path, &[0, 1], &encoding).unwrap());
    assert_eq!(retrieve_chunk(&store, &path, &[0, 1], &encoding).unwrap(), None);
}

#[test]
fn storage_partial_values() {
    let mut store = MemoryStore::new();
    store.set(&key("a"), &[1, 2, 3]).unwrap();
    let ranges = vec![
        StoreKeyRange::new(key("a"), ByteRange::FromStart(0, Some(1))),
        StoreKeyRange::new(key("a"), ByteRange::Suffix(2)),
        StoreKeyRange::new(key("b"), ByteRange::FromStart(0, None)),
        StoreKeyRange::new(key("a"), ByteRange::FromStart(2, None)),
    ];
    assert_eq!(
        get_partial_values_batched_by_key(&store, &ranges).unwrap(),
        vec![Some(vec![1]), Some(vec![2, 3]), None, Some(vec![3])]
    );

    let patches = [
        StoreKeyStartValue::new(key("a"), 1, &[7, 7]),
        StoreKeyStartValue::new(key("b"), 2, &[5]),
        StoreKeyStartValue::new(key("a"), 4, &[6]),
    ];
    assert_eq!(patches[0].end(), 3);
    set_partial_values(&mut store, &patches).unwrap();
    assert_eq!(store.get(&key("a")).unwrap(), Some(vec![1, 7, 7, 0, 6]));
    assert_eq!(store.get(&key("b")).unwrap(), Some(vec![0, 0, 5]));

    assert!(erase_values(&mut store, &[key("a"), key("b")]).unwrap());
    store.set(&key("c"), &[1]).unwrap();
    assert!(!erase_values(&mut store, &[key("c"), key("d")]).unwrap());
    assert_eq!(store.get(&key("c")).unwrap(), None);
}

#[test]
fn storage_keys_prefixes() {
    let listing = StoreKeysPrefixes::new(vec![key("a/zarr.json")], vec![StorePrefix::new("a/b/").unwrap()]);
    assert_eq!(listing.keys().len(), 1);
    assert_eq!(listing.keys()[0].as_str(), "a/zarr.json");
    assert_eq!(listing.prefixes()[0].as_str(), "a/b/");
}

#[test]
fn key_encoding_names() {
    let e = ChunkKeyEncoding::from_name("default", None).unwrap();
    assert_eq!(e, ChunkKeyEncoding::new_default());
    assert_eq!(ChunkKeyEncoding::from_name("v2", None).unwrap(), ChunkKeyEncoding::new_v2());
    let dotted = ChunkKeyEncoding::from_name("default", Some(".")).unwrap();
    assert_eq!(dotted.separator, ChunkKeySeparator::Dot);
    assert_eq!(dotted.name(), "default");
    assert_eq!(dotted.separator_str(), ".");
    assert_eq!(ChunkKeyEncoding::from_name("v3", None), None);
    assert_eq!(ChunkKeyEncoding::from_name("v2", Some("-")), None);
}
