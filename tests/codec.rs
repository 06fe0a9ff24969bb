use zarrs::array_subset::ArraySubset;
use zarrs::bytes::ByteRange;
use zarrs::codec::{
    codec_from_metadata, codec_metadata, CodecMetadata, Crc32cCodec,
    create_codec_bz2, create_codec_zstd, is_name_bz2, is_name_zstd, Bz2Codec,
    Bz2CodecConfiguration, Bz2CompressionLevel, BytesCodec, BytesRepresentation,
    BytesToBytesCodec, Codec, CodecChain, CodecError, Endianness, GzipCodec, ZstdCodec,
    ZstdCodecConfiguration,
};

fn u16s_to_bytes(values: &[u16]) -> Vec<u8> {
    values.iter().flat_map(|v| v.to_le_bytes()).collect()
}

fn chain(endian: Endianness, stages: Vec<BytesToBytesCodec>) -> CodecChain {
    CodecChain::new(BytesCodec { endian }, stages)
}

fn bz2(level: u32) -> BytesToBytesCodec {
    BytesToBytesCodec::Bz2(Bz2Codec::new_with_configuration(&Bz2CodecConfiguration {
        level: Bz2CompressionLevel::new(level).unwrap(),
    }))
}

fn gzip(level: u32) -> BytesToBytesCodec {
    BytesToBytesCodec::Gzip(GzipCodec::new(level).unwrap())
}

fn zstd(level: i32, checksum: bool) -> BytesToBytesCodec {
    BytesToBytesCodec::Zstd(ZstdCodec::new(level, checksum))
}

fn partial_decode_2x2x2(stages: Vec<BytesToBytesCodec>) -> Vec<u16> {
    let elements: Vec<u16> = (0..8).collect();
    let bytes = u16s_to_bytes(&elements);
    let codecs = chain(Endianness::Little, stages);
    let encoded = codecs.encode(&bytes, 2).unwrap();
    let ranges = ArraySubset::new_with_start_shape(vec![0, 1, 0], vec![2, 1, 1])
        .unwrap()
        .byte_ranges(&[2, 2, 2], 2)
        .unwrap();
    let decoded = codecs.partial_decode(&encoded, &ranges, bytes.len() as u64, 2).unwrap();
    decoded
        .into_iter()
        .flatten()
        .collect::<Vec<u8>>()
        .chunks(2)
        .map(|b| u16::from_le_bytes(b.try_into().unwrap()))
        .collect()
}

#[test]
fn codec_bz2_round_trip1() {
    let elements: Vec<u16> = (0..32).collect();
    let bytes = u16s_to_bytes(&elements);
    let codecs = chain(Endianness::Little, vec![bz2(5)]);
    let encoded = codecs.encode(&bytes, 2).unwrap();
    assert_ne!(encoded, bytes);
    let decoded = codecs.decode(&encoded, bytes.len() as u64, 2).unwrap();
    assert_eq!(bytes, decoded);
}

#[test]
fn codec_bz2_partial_decode() {
    assert_eq!(partial_decode_2x2x2(vec![bz2(5)]), vec![2, 6]);
}

#[test]
fn codec_gzip_partial_decode() {
    assert_eq!(partial_decode_2x2x2(vec![gzip(5)]), vec![2, 6]);
}

#[test]
fn codec_zstd_partial_decode() {
    assert_eq!(partial_decode_2x2x2(vec![zstd(1, false)]), vec![2, 6]);
}

#[test]
fn codec_chains_round_trip() {
    let bytes: Vec<u8> = (0..=255u8).cycle().take(4000).collect();
    let pipelines = vec![
        chain(Endianness::Little, vec![]),
        chain(Endianness::Big, vec![]),
        chain(Endianness::Little, vec![gzip(9)]),
        chain(Endianness::Big, vec![zstd(3, true), gzip(1)]),
        chain(Endianness::Little, vec![bz2(9), zstd(-1, false), gzip(0)]),
    ];
    for codecs in pipelines {
        let encoded = codecs.encode(&bytes, 4).unwrap();
        assert_eq!(codecs.decode(&encoded, bytes.len() as u64, 4).unwrap(), bytes);
    }
}

#[test]
fn codec_big_endian_layout() {
    let codecs = chain(Endianness::Big, vec![]);
    let encoded = codecs.encode(&[1, 2, 3, 4, 5, 6], 2).unwrap();
    assert_eq!(encoded, vec![2, 1, 4, 3, 6, 5]);
}

#[test]
fn codec_compressors_change_bytes() {
    let bytes = vec![7u8; 1000];
    for stage in [gzip(6), zstd(3, false), bz2(1)] {
        let codecs = chain(Endianness::Little, vec![stage]);
        let encoded = codecs.encode(&bytes, 1).unwrap();
        assert_ne!(encoded, bytes);
        assert!(encoded.len() < bytes.len());
        assert_eq!(codecs.decode(&encoded, 1000, 1).unwrap(), bytes);
    }
}

#[test]
fn codec_partial_decode_matches_full() {
    let bytes: Vec<u8> = (0..100u8).collect();
    let codecs = chain(Endianness::Little, vec![zstd(5, true)]);
    let encoded = codecs.encode(&bytes, 1).unwrap();
    let full = codecs.decode(&encoded, 100, 1).unwrap();
    let ranges = vec![
        ByteRange::FromStart(10, Some(5)),
        ByteRange::FromStart(0, None),
        ByteRange::Suffix(3),
        ByteRange::FromStart(100, Some(0)),
    ];
    let parts = codecs.partial_decode(&encoded, &ranges, 100, 1).unwrap();
    assert_eq!(parts[0], full[10..15].to_vec());
    assert_eq!(parts[1], full);
    assert_eq!(parts[2], full[97..].to_vec());
    assert!(parts[3].is_empty());
    assert!(matches!(
        codecs.partial_decode(&encoded, &[ByteRange::FromStart(99, Some(2))], 100, 1),
        Err(CodecError::InvalidByteRange(_))
    ));
}

#[test]
fn codec_decode_errors() {
    let codecs = chain(Endianness::Little, vec![gzip(5)]);
    let encoded = codecs.encode(&[1, 2, 3, 4], 1).unwrap();
    assert_eq!(
        codecs.decode(&encoded, 5, 1),
        Err(CodecError::UnexpectedChunkDecodedSize(5, 4))
    );
    assert!(matches!(codecs.decode(&[1, 2, 3], 3, 1), Err(CodecError::IOError(_))));
    let level0 = chain(Endianness::Little, vec![bz2(0)]);
    assert!(matches!(level0.encode(&[1, 2], 1), Err(CodecError::Other(_))));
}

#[test]
fn codec_chain_from_codecs() {
    let a2b = Codec::ArrayToBytes(BytesCodec { endian: Endianness::Little });
    let b2b = Codec::BytesToBytes(gzip(1));
    assert!(CodecChain::from_codecs(&[a2b, b2b]).is_ok());
    assert!(CodecChain::from_codecs(&[]).is_err());
    assert!(CodecChain::from_codecs(&[b2b, a2b]).is_err());
    assert!(CodecChain::from_codecs(&[a2b, b2b, a2b]).is_err());
}

#[test]
fn codec_zstd_encoded_size() {
    let codec = ZstdCodec::new(3, false);
    assert_eq!(
        codec.compute_encoded_size(BytesRepresentation::FixedSize(2500)),
        BytesRepresentation::BoundedSize(2500 + 22 + 9)
    );
    assert_eq!(
        codec.compute_encoded_size(BytesRepresentation::BoundedSize(0)),
        BytesRepresentation::BoundedSize(22)
    );
    assert_eq!(
        codec.compute_encoded_size(BytesRepresentation::UnboundedSize),
        BytesRepresentation::UnboundedSize
    );
    assert_eq!(
        codec.compute_encoded_size(BytesRepresentation::FixedSize(u64::MAX - 10)),
        BytesRepresentation::UnboundedSize
    );
    assert!(!codec.partial_decoder_should_cache_input());
    assert!(codec.partial_decoder_decodes_all());
}

#[test]
fn codec_names_and_levels() {
    assert!(is_name_bz2("bz2"));
    assert!(is_name_bz2("https://codec.zarrs.dev/bytes_to_bytes/bz2"));
    assert!(!is_name_bz2("zstd"));
    assert!(is_name_zstd("zstd"));
    assert!(!is_name_zstd("bz2"));
    assert_eq!(Bz2CompressionLevel::new(9).unwrap().as_u32(), 9);
    assert_eq!(Bz2CompressionLevel::new(10), Err(10));
    assert!(GzipCodec::new(10).is_none());
    assert_eq!(GzipCodec::new(4).unwrap().level(), 4);
    let level = Bz2CompressionLevel::new(3).unwrap();
    assert_eq!(
        create_codec_bz2(&Bz2CodecConfiguration { level }),
        Codec::BytesToBytes(BytesToBytesCodec::Bz2(Bz2Codec { level }))
    );
    let configuration = ZstdCodecConfiguration { level: 7, checksum: true };
    assert_eq!(
        create_codec_zstd(&configuration),
        Codec::BytesToBytes(BytesToBytesCodec::Zstd(ZstdCodec::new(7, true)))
    );
    assert_eq!(ZstdCodec::new_with_configuration(&configuration).configuration(), configuration);
}

#[test]
fn codec_from_metadata_names() {
    let m = |name: &str, level: Option<i64>, checksum: Option<bool>, endian: Option<Endianness>| {
        CodecMetadata { name: name.to_string(), level, checksum, endian }
    };
    assert_eq!(
        codec_from_metadata(&m("bytes", None, None, None)),
        Some(Codec::ArrayToBytes(BytesCodec { endian: Endianness::Little }))
    );
    assert_eq!(
        codec_from_metadata(&m("zstd", Some(5), None, None)),
        Some(Codec::BytesToBytes(BytesToBytesCodec::Zstd(ZstdCodec::new(5, false))))
    );
    assert_eq!(codec_from_metadata(&m("gzip", Some(12), None, None)), None);
    assert_eq!(codec_from_metadata(&m("gzip", None, None, None)), None);
    assert_eq!(codec_from_metadata(&m("bz2", Some(10), None, None)), None);
    assert_eq!(codec_from_metadata(&m("blosc", Some(1), None, None)), None);
    for codec in [
        Codec::ArrayToBytes(BytesCodec { endian: Endianness::Big }),
        Codec::BytesToBytes(gzip(3)),
        Codec::BytesToBytes(zstd(-7, true)),
        Codec::BytesToBytes(bz2(2)),
    ] {
        assert_eq!(codec_from_metadata(&codec_metadata(&codec)), Some(codec));
    }
}

#[test]
fn codec_crc32c_checksum() {
    let data: Vec<u8> = b"123456789".to_vec();
    let mut codecs = chain(Endianness::Little, vec![BytesToBytesCodec::Crc32c(Crc32cCodec)]);
    let encoded = codecs.encode(&data, 1).unwrap();
    assert_eq!(&encoded[..9], &data[..]);
    // CRC-32C of "123456789" is 0xe3069283.
    assert_eq!(&encoded[9..], &[0x83, 0x92, 0x06, 0xe3]);
    assert_eq!(codecs.decode(&encoded, 9, 1).unwrap(), data);
    let mut corrupt = encoded.clone();
    corrupt[0] = b'0';
    assert!(matches!(codecs.decode(&corrupt, 9, 1), Err(CodecError::Other(_))));
    codecs.set_validate_checksums(false);
    assert!(!codecs.validate_checksums());
    assert_eq!(codecs.decode(&corrupt, 9, 1).unwrap()[0], b'0');
    assert_eq!(codecs.decode(&[1, 2], 0, 1), Err(CodecError::InvalidByteLength));
    assert_eq!(
        codec_from_metadata(&codec_metadata(&Codec::BytesToBytes(BytesToBytesCodec::Crc32c(Crc32cCodec)))),
        Some(Codec::BytesToBytes(BytesToBytesCodec::Crc32c(Crc32cCodec)))
    );
}
