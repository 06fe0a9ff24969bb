use zarrs::config::Config;
use zarrs::group_metadata::GroupMetadataV3;

#[test]
fn config_validate_checksums() {
    let mut config = Config::new(8);
    assert!(config.validate_checksums());
    config.set_validate_checksums(false);
    assert!(!config.validate_checksums());
    config.set_validate_checksums(true);
    assert!(config.validate_checksums());
}

#[test]
fn config_defaults_and_setters() {
    let mut config = Config::new(6);
    assert!(!config.store_empty_chunks());
    assert_eq!(config.codec_concurrent_target(), 6);
    assert_eq!(config.chunk_concurrent_minimum(), 4);
    assert!(!config.experimental_codec_store_metadata_if_encode_only());
    config.set_store_empty_chunks(true);
    config.set_codec_concurrent_target(2);
    config.set_chunk_concurrent_minimum(1);
    config.set_experimental_codec_store_metadata_if_encode_only(true);
    assert!(config.store_empty_chunks());
    assert_eq!(config.codec_concurrent_target(), 2);
    assert_eq!(config.chunk_concurrent_minimum(), 1);
    assert!(config.experimental_codec_store_metadata_if_encode_only());
    assert!(config.validate_checksums());
}

#[test]
fn group_metadata_validation() {
    let mut group = GroupMetadataV3::new("{}".to_string(), vec![]);
    assert!(group.validate_format());
    assert!(group.validate_node_type());
    group.zarr_format = 2;
    group.node_type = "array".to_string();
    assert!(!group.validate_format());
    assert!(!group.validate_node_type());
}
