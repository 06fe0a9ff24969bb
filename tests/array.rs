use std::sync::Mutex;

use rayon::prelude::{IntoParallelIterator, ParallelIterator};
use zarrs::array::{
    AdditionalField, Array, ArrayBuilder, ArrayCreateError, ArrayError, ArrayMetadataV3,
    ArrayRepresentation, DataType,
};
use zarrs::array_subset::ArraySubset;
use zarrs::chunk_key_encoding::ChunkKeyEncoding;
use zarrs::codec::{BytesCodec, BytesToBytesCodec, Codec, Endianness, GzipCodec, ZstdCodec};
use zarrs::fill_value::{
    bytes_from_hex, bytes_to_hex, fill_value_from_signed, fill_value_from_unsigned,
};
use zarrs::storage::{MemoryStore, ReadableStorageTraits, StoreKey, WritableStorageTraits};

fn bytes_codec() -> Codec {
    Codec::ArrayToBytes(BytesCodec { endian: Endianness::Little })
}

fn gzip() -> Codec {
    Codec::BytesToBytes(BytesToBytesCodec::Gzip(GzipCodec::new(5).unwrap()))
}

fn metadata(
    shape: Vec<u64>,
    data_type: DataType,
    chunk_shape: Vec<u64>,
    fill_value: Vec<u8>,
    codecs: Vec<Codec>,
) -> ArrayMetadataV3 {
    ArrayMetadataV3 {
        zarr_format: 3,
        node_type: "array".to_string(),
        shape,
        data_type,
        chunk_grid: chunk_shape,
        chunk_key_encoding: ChunkKeyEncoding::new_default(),
        fill_value,
        codecs,
        attributes: "{}".to_string(),
        storage_transformers: vec![],
        dimension_names: None,
        additional_fields: vec![],
    }
}

fn subset(start: Vec<u64>, shape: Vec<u64>) -> ArraySubset {
    ArraySubset::new_with_start_shape(start, shape).unwrap()
}

fn f32s_to_bytes(values: &[f32]) -> Vec<u8> {
    values.iter().flat_map(|v| v.to_le_bytes()).collect()
}

fn bytes_to_f32s(bytes: &[u8]) -> Vec<f32> {
    bytes.chunks(4).map(|b| f32::from_le_bytes(b.try_into().unwrap())).collect()
}

#[test]
fn test_array_metadata_write_read() {
    let array_path = "/array";
    let array = Array::new_with_metadata(
        MemoryStore::new(),
        array_path,
        metadata(vec![8, 8], DataType::UInt8, vec![4, 4], vec![0], vec![bytes_codec()]),
    )
    .unwrap();
    let reopened =
        Array::new_with_metadata(MemoryStore::new(), array_path, array.metadata()).unwrap();
    assert_eq!(reopened.metadata(), array.metadata());
}

#[test]
fn array_set_shape_and_attributes() {
    let array_path = "/group/array";
    let mut array = Array::new_with_metadata(
        MemoryStore::new(),
        array_path,
        metadata(
            vec![8, 8],
            DataType::Float32,
            vec![4, 4],
            f32::NAN.to_le_bytes().to_vec(),
            vec![bytes_codec(), gzip()],
        ),
    )
    .unwrap();
    array.set_shape(vec![16, 16]);
    array.set_attributes(r#"{"test":"apple"}"#.to_string());
    assert_eq!(array.shape(), &vec![16, 16]);
    assert_eq!(array.attributes(), r#"{"test":"apple"}"#);
}

#[test]
fn array_subset_round_trip() {
    let mut array = Array::new_with_metadata(
        MemoryStore::new(),
        "/array",
        metadata(
            vec![8, 8],
            DataType::Float32,
            vec![4, 4],
            1f32.to_le_bytes().to_vec(),
            vec![bytes_codec(), gzip()],
        ),
    )
    .unwrap();
    array
        .store_array_subset(
            &subset(vec![3, 3], vec![3, 3]),
            &f32s_to_bytes(&[0.1, 0.2, 0.3, 0.4, 0.5, 0.6, 0.7, 0.8, 0.9]),
        )
        .unwrap();
    let all = subset(vec![0, 0], array.shape().clone());
    let data_all = bytes_to_f32s(&array.retrieve_array_subset(&all).unwrap());
    assert_eq!(
        data_all,
        vec![
            1.0, 1.0, 1.0, 1.0, 1.0, 1.0, 1.0, 1.0, //
            1.0, 1.0, 1.0, 1.0, 1.0, 1.0, 1.0, 1.0, //
            1.0, 1.0, 1.0, 1.0, 1.0, 1.0, 1.0, 1.0, //
            1.0, 1.0, 1.0, 0.1, 0.2, 0.3, 1.0, 1.0, //
            1.0, 1.0, 1.0, 0.4, 0.5, 0.6, 1.0, 1.0, //
            1.0, 1.0, 1.0, 0.7, 0.8, 0.9, 1.0, 1.0, //
            1.0, 1.0, 1.0, 1.0, 1.0, 1.0, 1.0, 1.0, //
            1.0, 1.0, 1.0, 1.0, 1.0, 1.0, 1.0, 1.0, //
        ]
    );
}

#[test]
fn array_subset_locking() {
    let array = Mutex::new(
        Array::new_with_metadata(
            MemoryStore::new(),
            "/array",
            metadata(vec![100, 4], DataType::UInt8, vec![10, 2], vec![0], vec![bytes_codec()]),
        )
        .unwrap(),
    );
    for j in 1..10u8 {
        (0..100u64).into_par_iter().for_each(|i| {
            let s = subset(vec![i, 0], vec![1, 4]);
            array.lock().unwrap().store_array_subset(&s, &vec![j; 4]).unwrap();
        });
        let array = array.lock().unwrap();
        let all = subset(vec![0, 0], array.shape().clone());
        let data_all = array.retrieve_array_subset(&all).unwrap();
        assert_eq!(data_all.len(), 400);
        assert!(data_all.iter().all(|v| *v == j));
    }
}

#[test]
fn array_subset_u8_block() {
    let mut array = Array::new_with_metadata(
        MemoryStore::new(),
        "/array",
        metadata(vec![8, 8], DataType::UInt8, vec![4, 4], vec![0], vec![bytes_codec()]),
    )
    .unwrap();
    array
        .store_array_subset(&subset(vec![3, 3], vec![3, 3]), &[1, 2, 3, 4, 5, 6, 7, 8, 9])
        .unwrap();
    let all = array.retrieve_array_subset(&subset(vec![0, 0], vec![8, 8])).unwrap();
    let mut expected = vec![0u8; 64];
    for r in 0..3 {
        for c in 0..3 {
            expected[(3 + r) * 8 + 3 + c] = (r * 3 + c + 1) as u8;
        }
    }
    assert_eq!(all, expected);
    // Reading the written block back gives the bytes written.
    let block = array.retrieve_array_subset(&subset(vec![3, 3], vec![3, 3])).unwrap();
    assert_eq!(block, vec![1, 2, 3, 4, 5, 6, 7, 8, 9]);
}

#[test]
fn array_disjoint_region_unchanged() {
    let mut array = Array::new_with_metadata(
        MemoryStore::new(),
        "/array",
        metadata(vec![6, 6], DataType::UInt16, vec![4, 4], vec![7, 0], vec![bytes_codec(), gzip()]),
    )
    .unwrap();
    let left = subset(vec![0, 0], vec![6, 3]);
    let right = subset(vec![0, 3], vec![6, 3]);
    let left_bytes: Vec<u8> = (0..36u8).collect();
    array.store_array_subset(&left, &left_bytes).unwrap();
    let before = array.retrieve_array_subset(&right).unwrap();
    assert_eq!(before, [7u8, 0].repeat(18));
    array.store_array_subset(&subset(vec![2, 0], vec![2, 2]), &[9u8; 8]).unwrap();
    assert_eq!(array.retrieve_array_subset(&right).unwrap(), before);
    let left_now = array.retrieve_array_subset(&left).unwrap();
    assert_eq!(&left_now[0..12], &left_bytes[0..12]);
    assert_eq!(&left_now[12..16], &[9u8; 4]);
}

#[test]
fn array_metadata_unknown_field() {
    let mut m = metadata(vec![4], DataType::UInt8, vec![2], vec![0], vec![bytes_codec()]);
    m.additional_fields = vec![AdditionalField {
        name: "x".to_string(),
        value: r#"{"x": 1, "must_understand": false}"#.to_string(),
        must_understand: false,
    }];
    let array = Array::new_with_metadata(MemoryStore::new(), "/array", m.clone()).unwrap();
    assert_eq!(array.metadata(), m);
    assert_eq!(array.additional_fields()[0].name, "x");

    let mut rejected = m.clone();
    rejected.additional_fields[0].must_understand = true;
    let err = Array::new_with_metadata(MemoryStore::new(), "/array", rejected).err().unwrap();
    assert_eq!(err, ArrayCreateError::UnsupportedAdditionalField("x".to_string()));
}

#[test]
fn array_create_errors() {
    let good = metadata(vec![4, 4], DataType::UInt8, vec![2, 2], vec![0], vec![bytes_codec()]);
    let store = || MemoryStore::new();
    assert!(matches!(
        Array::new_with_metadata(store(), "array", good.clone()).err().unwrap(),
        ArrayCreateError::InvalidPath(_)
    ));
    let mut m = good.clone();
    m.zarr_format = 2;
    assert_eq!(
        Array::new_with_metadata(store(), "/a", m).err().unwrap(),
        ArrayCreateError::InvalidZarrFormat(2)
    );
    let mut m = good.clone();
    m.node_type = "group".to_string();
    assert_eq!(
        Array::new_with_metadata(store(), "/a", m).err().unwrap(),
        ArrayCreateError::InvalidNodeType("group".to_string())
    );
    let mut m = good.clone();
    m.chunk_grid = vec![2, 0];
    assert_eq!(
        Array::new_with_metadata(store(), "/a", m).err().unwrap(),
        ArrayCreateError::InvalidChunkGrid
    );
    let mut m = good.clone();
    m.chunk_grid = vec![2];
    assert_eq!(
        Array::new_with_metadata(store(), "/a", m).err().unwrap(),
        ArrayCreateError::InvalidChunkGridDimensionality(1, 2)
    );
    let mut m = good.clone();
    m.fill_value = vec![0, 0];
    assert_eq!(
        Array::new_with_metadata(store(), "/a", m).err().unwrap(),
        ArrayCreateError::InvalidFillValue(2, 1)
    );
    let mut m = good.clone();
    m.codecs = vec![gzip()];
    assert_eq!(
        Array::new_with_metadata(store(), "/a", m).err().unwrap(),
        ArrayCreateError::InvalidCodecs
    );
    let mut m = good.clone();
    m.dimension_names = Some(vec![Some("y".to_string())]);
    assert_eq!(
        Array::new_with_metadata(store(), "/a", m).err().unwrap(),
        ArrayCreateError::InvalidDimensionNames(1, 2)
    );
    let mut m = good.clone();
    m.data_type = DataType::RawBits(12);
    assert_eq!(
        Array::new_with_metadata(store(), "/a", m).err().unwrap(),
        ArrayCreateError::InvalidDataType
    );
    let mut m = good;
    m.shape = vec![u64::MAX, 4];
    assert_eq!(
        Array::new_with_metadata(store(), "/a", m).err().unwrap(),
        ArrayCreateError::ShapeTooLarge
    );
}

#[test]
fn array_empty_chunk_elided() {
    let mut array = Array::new_with_metadata(
        MemoryStore::new(),
        "/array",
        metadata(vec![4, 4], DataType::UInt8, vec![2, 2], vec![5], vec![bytes_codec(), gzip()]),
    )
    .unwrap();
    assert!(!array.store_empty_chunks());
    array.store_chunk(&[1, 0], &[1, 2, 3, 4]).unwrap();
    let key = array.chunk_key_of(&[1, 0]);
    assert_eq!(key.as_str(), "array/c/1/0");
    assert!(array.storage().size_key(&key).unwrap().is_some());
    array.store_chunk(&[1, 0], &[5, 5, 5, 5]).unwrap();
    assert_eq!(array.storage().size_key(&key).unwrap(), None);
    assert_eq!(array.retrieve_chunk(&[1, 0]).unwrap(), vec![5, 5, 5, 5]);

    array.set_store_empty_chunks(true);
    array.store_chunk(&[1, 0], &[5, 5, 5, 5]).unwrap();
    assert!(array.storage().size_key(&key).unwrap().is_some());
    assert_eq!(array.retrieve_chunk(&[1, 0]).unwrap(), vec![5, 5, 5, 5]);
}

#[test]
fn array_chunk_idempotent() {
    let mut array = Array::new_with_metadata(
        MemoryStore::new(),
        "/array",
        metadata(vec![4, 4], DataType::UInt8, vec![2, 2], vec![0], vec![bytes_codec()]),
    )
    .unwrap();
    array.store_chunk(&[0, 1], &[1, 2, 3, 4]).unwrap();
    let key = array.chunk_key_of(&[0, 1]);
    let stored = array.storage().get(&key).unwrap();
    let chunk = array.retrieve_chunk(&[0, 1]).unwrap();
    array.store_chunk(&[0, 1], &chunk).unwrap();
    assert_eq!(array.storage().get(&key).unwrap(), stored);
    let all = subset(vec![0, 0], vec![4, 4]);
    assert_eq!(
        array.retrieve_array_subset(&all).unwrap(),
        vec![0, 0, 1, 2, 0, 0, 3, 4, 0, 0, 0, 0, 0, 0, 0, 0]
    );
}

#[test]
fn array_chunk_subset_serial() {
    let array = Mutex::new(
        Array::new_with_metadata(
            MemoryStore::new(),
            "/array",
            metadata(vec![4, 4], DataType::UInt8, vec![4, 4], vec![0], vec![bytes_codec()]),
        )
        .unwrap(),
    );
    let a = subset(vec![0, 0], vec![2, 3]);
    let b = subset(vec![1, 1], vec![2, 3]);
    rayon::join(
        || array.lock().unwrap().store_chunk_subset(&[0, 0], &a, &[1; 6]).unwrap(),
        || array.lock().unwrap().store_chunk_subset(&[0, 0], &b, &[2; 6]).unwrap(),
    );
    let chunk = array.lock().unwrap().retrieve_chunk(&[0, 0]).unwrap();
    let a_then_b = vec![1, 1, 1, 0, 1, 2, 2, 2, 0, 2, 2, 2, 0, 0, 0, 0];
    let b_then_a = vec![1, 1, 1, 0, 1, 1, 1, 2, 0, 2, 2, 2, 0, 0, 0, 0];
    assert!(chunk == a_then_b || chunk == b_then_a);
}

#[test]
fn array_chunk_subset_read() {
    let mut array = Array::new_with_metadata(
        MemoryStore::new(),
        "/array",
        metadata(vec![3, 3], DataType::UInt8, vec![2, 2], vec![9], vec![bytes_codec()]),
    )
    .unwrap();
    array.store_array_subset(&subset(vec![0, 0], vec![3, 3]), &[1, 2, 3, 4, 5, 6, 7, 8, 9]).unwrap();
    // The edge chunk holds the fill value beyond the array.
    assert_eq!(array.retrieve_chunk(&[1, 1]).unwrap(), vec![9, 9, 9, 9]);
    assert_eq!(array.retrieve_chunk(&[0, 1]).unwrap(), vec![3, 9, 6, 9]);
    assert_eq!(
        array.retrieve_chunk_subset(&[0, 0], &subset(vec![0, 1], vec![2, 1])).unwrap(),
        vec![2, 5]
    );
    assert!(matches!(
        array.retrieve_chunk_subset(&[0, 0], &subset(vec![1, 1], vec![2, 1])),
        Err(ArrayError::InvalidArraySubset)
    ));
    assert!(matches!(
        array.retrieve_chunk(&[2, 0]),
        Err(ArrayError::InvalidChunkGridIndicesError(_))
    ));
}

#[test]
fn array_operation_errors() {
    let mut array = Array::new_with_metadata(
        MemoryStore::new(),
        "/array",
        metadata(vec![4, 4], DataType::UInt16, vec![2, 2], vec![0, 0], vec![bytes_codec()]),
    )
    .unwrap();
    assert!(matches!(
        array.store_chunk(&[0, 0], &[1, 2, 3]),
        Err(ArrayError::InvalidBytesInputSize(3, 8))
    ));
    assert!(matches!(
        array.store_chunk(&[0, 2], &[0; 8]),
        Err(ArrayError::InvalidChunkGridIndicesError(_))
    ));
    assert!(matches!(
        array.retrieve_array_subset(&subset(vec![0], vec![1])),
        Err(ArrayError::IncompatibleDimensionalityError(_))
    ));
    assert!(matches!(
        array.retrieve_array_subset(&subset(vec![3, 3], vec![2, 1])),
        Err(ArrayError::InvalidArraySubset)
    ));
    assert!(matches!(
        array.store_array_subset(&subset(vec![0, 0], vec![2, 2]), &[0; 7]),
        Err(ArrayError::InvalidBytesInputSize(7, 8))
    ));
    // A stored blob that does not decode is an error, not the fill value.
    array.store_chunk(&[0, 0], &[1, 0, 2, 0, 3, 0, 4, 0]).unwrap();
    let mut broken = Array::new_with_metadata(
        array.into_storage(),
        "/array",
        metadata(vec![4, 4], DataType::UInt16, vec![2, 2], vec![0, 0], vec![bytes_codec(), gzip()]),
    )
    .unwrap();
    assert!(matches!(broken.retrieve_chunk(&[0, 0]), Err(ArrayError::CodecError(_))));
    assert!(matches!(
        broken.store_array_subset(&subset(vec![0, 0], vec![1, 1]), &[1, 0]),
        Err(ArrayError::CodecError(_))
    ));
    // A chunk the region covers is written without reading what was there.
    broken.store_array_subset(&subset(vec![0, 0], vec![2, 2]), &[5, 0, 6, 0, 7, 0, 8, 0]).unwrap();
    assert_eq!(broken.retrieve_chunk(&[0, 0]).unwrap(), vec![5, 0, 6, 0, 7, 0, 8, 0]);
}

#[test]
fn array_big_endian_zstd() {
    let codecs = vec![
        Codec::ArrayToBytes(BytesCodec { endian: Endianness::Big }),
        Codec::BytesToBytes(BytesToBytesCodec::Zstd(ZstdCodec::new(3, true))),
    ];
    let mut array = Array::new_with_metadata(
        MemoryStore::new(),
        "/big",
        metadata(vec![2, 3], DataType::UInt32, vec![2, 2], vec![0; 4], codecs),
    )
    .unwrap();
    let values: Vec<u8> = (1..=24u8).collect();
    let all = subset(vec![0, 0], vec![2, 3]);
    array.store_array_subset(&all, &values).unwrap();
    assert_eq!(array.retrieve_array_subset(&all).unwrap(), values);
    assert_eq!(array.chunk_key_of(&[0, 1]).as_str(), "big/c/0/1");
}

#[test]
fn array_data_type_names() {
    for dt in [
        DataType::Bool,
        DataType::Int8,
        DataType::UInt64,
        DataType::Float16,
        DataType::BFloat16,
        DataType::Complex128,
        DataType::RawBits(24),
    ] {
        assert_eq!(DataType::from_name(&dt.name()), Some(dt));
    }
    assert_eq!(DataType::Float32.name(), "float32");
    assert_eq!(DataType::RawBits(16).name(), "r16");
    assert_eq!(DataType::RawBits(16).size(), 2);
    assert_eq!(DataType::Complex64.size(), 8);
    assert_eq!(DataType::from_name("r08"), None);
    assert_eq!(DataType::from_name("r12"), None);
    assert_eq!(DataType::from_name("float128"), None);
}

#[test]
fn array_metadata_document_key() {
    let mut array = Array::new_with_metadata(
        MemoryStore::new(),
        "/group/array",
        metadata(vec![2], DataType::UInt8, vec![2], vec![0], vec![bytes_codec()]),
    )
    .unwrap();
    array.store_metadata_document(b"{}").unwrap();
    let key = StoreKey::new("group/array/zarr.json").unwrap();
    assert_eq!(array.storage().get(&key).unwrap(), Some(b"{}".to_vec()));
}

#[test]
fn array_chunks_in_subset() {
    let array = Array::new_with_metadata(
        MemoryStore::new(),
        "/array",
        metadata(vec![10, 9], DataType::UInt8, vec![4, 3], vec![0], vec![bytes_codec()]),
    )
    .unwrap();
    let chunks = array.chunks_in_array_subset(&subset(vec![3, 2], vec![6, 2])).unwrap().unwrap();
    assert_eq!(chunks.start(), &vec![0, 0]);
    assert_eq!(chunks.shape(), &vec![3, 2]);
    assert_eq!(array.chunks_in_array_subset(&subset(vec![3, 2], vec![0, 2])).unwrap(), None);
    assert_eq!(array.chunks_in_array_subset(&subset(vec![9, 2], vec![2, 2])).unwrap(), None);
    assert!(array.chunks_in_array_subset(&subset(vec![0], vec![1])).is_err());
    assert_eq!(array.chunk_grid_shape(), vec![3, 3]);
    assert_eq!(array.chunk_shape(&[2, 2]).unwrap(), vec![4, 3]);
    let bounded = array.chunk_subset_bounded(&[2, 2]).unwrap();
    assert_eq!(bounded.start(), &vec![8, 6]);
    assert_eq!(bounded.shape(), &vec![2, 3]);
    assert_eq!(array.chunk_subset(&[2, 2]).unwrap().shape(), &vec![4, 3]);
    let representation = array.chunk_array_representation(&[1, 1]).unwrap();
    assert_eq!(representation.shape(), &vec![4, 3]);
    assert_eq!(representation.size(), Some(12));
    assert!(ArrayRepresentation::new(vec![2], DataType::UInt16, vec![0]).is_none());
}

#[test]
fn array_builder_builds() {
    let mut builder = ArrayBuilder::new(vec![8, 8], DataType::Float32, vec![4, 4], 1f32.to_le_bytes().to_vec());
    builder.bytes_to_bytes_codecs(vec![BytesToBytesCodec::Gzip(GzipCodec::new(5).unwrap())]);
    builder.dimension_names(Some(vec![Some("y".to_string()), None]));
    let array = builder.clone().build(MemoryStore::new(), "/array").unwrap();
    assert_eq!(&array.metadata(), builder.metadata());
    assert_eq!(array.builder().metadata(), builder.metadata());
    assert!(ArrayBuilder::new(vec![8], DataType::UInt8, vec![4, 4], vec![0])
        .build(MemoryStore::new(), "/array")
        .is_err());
}

#[test]
fn array_chunk_subset_by_ranges() {
    let mut array = Array::new_with_metadata(
        MemoryStore::new(),
        "/array",
        metadata(vec![4, 4], DataType::UInt16, vec![2, 2], vec![1, 0], vec![bytes_codec()]),
    )
    .unwrap();
    let corner = subset(vec![1, 0], vec![1, 2]);
    assert_eq!(array.retrieve_chunk_subset(&[0, 0], &corner).unwrap(), vec![1, 0, 1, 0]);
    array.store_chunk(&[0, 0], &[1, 0, 2, 0, 3, 0, 4, 0]).unwrap();
    assert_eq!(array.retrieve_chunk_subset(&[0, 0], &corner).unwrap(), vec![3, 0, 4, 0]);
    let key = array.chunk_key_of(&[0, 0]);
    let mut store = array.into_storage();
    store.set(&key, &[1, 2, 3]).unwrap();
    let array = Array::new_with_metadata(
        store,
        "/array",
        metadata(vec![4, 4], DataType::UInt16, vec![2, 2], vec![1, 0], vec![bytes_codec()]),
    )
    .unwrap();
    assert!(matches!(
        array.retrieve_chunk_subset(&[0, 0], &corner),
        Err(ArrayError::CodecError(_))
    ));
}

#[test]
fn array_checksum_validation() {
    let codecs = vec![
        bytes_codec(),
        Codec::BytesToBytes(BytesToBytesCodec::Crc32c(zarrs::codec::Crc32cCodec)),
    ];
    let mut array = Array::new_with_metadata(
        MemoryStore::new(),
        "/array",
        metadata(vec![2], DataType::UInt8, vec![2], vec![0], codecs.clone()),
    )
    .unwrap();
    array.store_chunk(&[0], &[1, 2]).unwrap();
    let key = array.chunk_key_of(&[0]);
    let mut blob = array.storage().get(&key).unwrap().unwrap();
    blob[0] = 9;
    let mut store = array.into_storage();
    store.set(&key, &blob).unwrap();
    let mut array =
        Array::new_with_metadata(store, "/array", metadata(vec![2], DataType::UInt8, vec![2], vec![0], codecs))
            .unwrap();
    assert!(matches!(array.retrieve_chunk(&[0]), Err(ArrayError::CodecError(_))));
    array.set_validate_checksums(false);
    assert_eq!(array.retrieve_chunk(&[0]).unwrap(), vec![9, 2]);
}

#[test]
fn array_integer_fill_values() {
    assert_eq!(fill_value_from_unsigned(DataType::UInt16, 258), Some(vec![2, 1]));
    assert_eq!(fill_value_from_unsigned(DataType::UInt8, 256), None);
    assert_eq!(fill_value_from_unsigned(DataType::Bool, 1), Some(vec![1]));
    assert_eq!(fill_value_from_unsigned(DataType::Bool, 2), None);
    assert_eq!(fill_value_from_unsigned(DataType::Int8, 1), None);
    assert_eq!(fill_value_from_signed(DataType::Int16, -2), Some(vec![0xfe, 0xff]));
    assert_eq!(fill_value_from_signed(DataType::Int8, -128), Some(vec![0x80]));
    assert_eq!(fill_value_from_signed(DataType::Int8, 128), None);
    assert_eq!(fill_value_from_signed(DataType::Int64, i64::MIN), Some(i64::MIN.to_le_bytes().to_vec()));
    assert_eq!(bytes_from_hex("0x0aFf"), Some(vec![0x0a, 0xff]));
    assert_eq!(bytes_from_hex("0xabc"), None);
    assert_eq!(bytes_from_hex("abcd"), None);
    assert_eq!(bytes_to_hex(&[0x0a, 0xff]), "0x0aff");
}
