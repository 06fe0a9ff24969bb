//! Configuration options.
use vstd::prelude::*;

verus! {

/// Configuration options.
///
/// - validate checksums (default `true`): checksum codecs verify on full decode.
/// - store empty chunks (default `false`): when `false`, a chunk whose bytes are all the
///   fill value is erased instead of written.
/// - codec concurrent target (default: the machine's available parallelism): the
///   concurrency that encoding and decoding aim for.
/// - chunk concurrent minimum (default `4`): the preferred minimum number of chunks
///   handled at once.
/// - experimental codec store metadata if encode only (default `false`): whether codecs
///   that decoders may ignore write their metadata.
#[derive(Debug, Clone, Copy, PartialEq, Eq, Structural)]
pub struct Config {
    validate_checksums: bool,
    store_empty_chunks: bool,
    codec_concurrent_target: usize,
    chunk_concurrent_minimum: usize,
    experimental_codec_store_metadata_if_encode_only: bool,
}

impl Config {
    pub closed spec fn spec_validate_checksums(&self) -> bool {
        self.validate_checksums
    }

    pub closed spec fn spec_store_empty_chunks(&self) -> bool {
        self.store_empty_chunks
    }

    pub closed spec fn spec_codec_concurrent_target(&self) -> usize {
        self.codec_concurrent_target
    }

    pub closed spec fn spec_chunk_concurrent_minimum(&self) -> usize {
        self.chunk_concurrent_minimum
    }

    pub closed spec fn spec_experimental_codec_store_metadata_if_encode_only(&self) -> bool {
        self.experimental_codec_store_metadata_if_encode_only
    }

    /// The default configuration on a machine with `available_parallelism` threads.
    pub fn new(available_parallelism: usize) -> (r: Config)
        ensures
            r.spec_validate_checksums(),
            !r.spec_store_empty_chunks(),
            r.spec_codec_concurrent_target() == available_parallelism,
            r.spec_chunk_concurrent_minimum() == 4,
            !r.spec_experimental_codec_store_metadata_if_encode_only(),
    {
        Config {
            validate_checksums: true,
            store_empty_chunks: false,
            codec_concurrent_target: available_parallelism,
            chunk_concurrent_minimum: 4,
            experimental_codec_store_metadata_if_encode_only: false,
        }
    }

    pub fn validate_checksums(&self) -> (r: bool)
        ensures
            r == self.spec_validate_checksums(),
    {
        self.validate_checksums
    }

    pub fn set_validate_checksums(&mut self, validate_checksums: bool)
        ensures
            final(self).spec_validate_checksums() == validate_checksums,
            final(self).spec_store_empty_chunks() == old(self).spec_store_empty_chunks(),
            final(self).spec_codec_concurrent_target() == old(self).spec_codec_concurrent_target(),
            final(self).spec_chunk_concurrent_minimum() == old(self).spec_chunk_concurrent_minimum(),
            final(self).spec_experimental_codec_store_metadata_if_encode_only() == old(self).spec_experimental_codec_store_metadata_if_encode_only(),
    {
        self.validate_checksums = validate_checksums;
    }

    pub fn store_empty_chunks(&self) -> (r: bool)
        ensures
            r == self.spec_store_empty_chunks(),
    {
        self.store_empty_chunks
    }

    pub fn set_store_empty_chunks(&mut self, store_empty_chunks: bool)
        ensures
            final(self).spec_validate_checksums() == old(self).spec_validate_checksums(),
            final(self).spec_store_empty_chunks() == store_empty_chunks,
            final(self).spec_codec_concurrent_target() == old(self).spec_codec_concurrent_target(),
            final(self).spec_chunk_concurrent_minimum() == old(self).spec_chunk_concurrent_minimum(),
            final(self).spec_experimental_codec_store_metadata_if_encode_only() == old(self).spec_experimental_codec_store_metadata_if_encode_only(),
    {
        self.store_empty_chunks = store_empty_chunks;
    }

    pub fn codec_concurrent_target(&self) -> (r: usize)
        ensures
            r == self.spec_codec_concurrent_target(),
    {
        self.codec_concurrent_target
    }

    pub fn set_codec_concurrent_target(&mut self, concurrent_target: usize)
        ensures
            final(self).spec_validate_checksums() == old(self).spec_validate_checksums(),
            final(self).spec_store_empty_chunks() == old(self).spec_store_empty_chunks(),
            final(self).spec_codec_concurrent_target() == concurrent_target,
            final(self).spec_chunk_concurrent_minimum() == old(self).spec_chunk_concurrent_minimum(),
            final(self).spec_experimental_codec_store_metadata_if_encode_only() == old(self).spec_experimental_codec_store_metadata_if_encode_only(),
    {
        self.codec_concurrent_target = concurrent_target;
    }

    pub fn chunk_concurrent_minimum(&self) -> (r: usize)
        ensures
            r == self.spec_chunk_concurrent_minimum(),
    {
        self.chunk_concurrent_minimum
    }

    pub fn set_chunk_concurrent_minimum(&mut self, concurrent_minimum: usize)
        ensures
            final(self).spec_validate_checksums() == old(self).spec_validate_checksums(),
            final(self).spec_store_empty_chunks() == old(self).spec_store_empty_chunks(),
            final(self).spec_codec_concurrent_target() == old(self).spec_codec_concurrent_target(),
            final(self).spec_chunk_concurrent_minimum() == concurrent_minimum,
            final(self).spec_experimental_codec_store_metadata_if_encode_only() == old(self).spec_experimental_codec_store_metadata_if_encode_only(),
    {
        self.chunk_concurrent_minimum = concurrent_minimum;
    }

    pub fn experimental_codec_store_metadata_if_encode_only(&self) -> (r: bool)
        ensures
            r == self.spec_experimental_codec_store_metadata_if_encode_only(),
    {
        self.experimental_codec_store_metadata_if_encode_only
    }

    pub fn set_experimental_codec_store_metadata_if_encode_only(&mut self, enabled: bool)
        ensures
            final(self).spec_validate_checksums() == old(self).spec_validate_checksums(),
            final(self).spec_store_empty_chunks() == old(self).spec_store_empty_chunks(),
            final(self).spec_codec_concurrent_target() == old(self).spec_codec_concurrent_target(),
            final(self).spec_chunk_concurrent_minimum() == old(self).spec_chunk_concurrent_minimum(),
            final(self).spec_experimental_codec_store_metadata_if_encode_only() == enabled,
    {
        self.experimental_codec_store_metadata_if_encode_only = enabled;
    }
}

} // verus!
