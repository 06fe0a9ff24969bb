//! Codecs: the array-to-bytes layout stage and the bytes-to-bytes compressors, and the
//! chain that runs them.
use crate::bytes::{extract_byte_ranges, ranges_valid, slices_of, ByteRange};
use vstd::arithmetic::div_mod::{lemma_fundamental_div_mod, lemma_fundamental_div_mod_converse};
use vstd::prelude::*;
use vstd::string::{StrSliceExecFns, StringExecFns};

verus! {

/// What zstd decompression makes of `encoded`, or `None` where it is not valid zstd data.
pub uninterp spec fn zstd_decoded(encoded: Seq<u8>) -> Option<Seq<u8>>;

/// What gzip decompression makes of `encoded`, or `None` where it is not valid gzip data.
pub uninterp spec fn gzip_decoded(encoded: Seq<u8>) -> Option<Seq<u8>>;

/// What bzip2 decompression makes of `encoded`, or `None` where it is not valid bzip2 data.
pub uninterp spec fn bz2_decoded(encoded: Seq<u8>) -> Option<Seq<u8>>;

/// What the zstd encoder writes for `decoded` at `level`, with or without a checksum, or
/// `None` where it fails.
pub uninterp spec fn zstd_encoded(decoded: Seq<u8>, level: i32, checksum: bool) -> Option<Seq<u8>>;

/// What the gzip encoder writes for `decoded` at `level`, or `None` where it fails.
pub uninterp spec fn gzip_encoded(decoded: Seq<u8>, level: u32) -> Option<Seq<u8>>;

/// What the bzip2 encoder writes for `decoded` with block size `level`, or `None` where it
/// fails.
pub uninterp spec fn bz2_encoded(decoded: Seq<u8>, level: u32) -> Option<Seq<u8>>;

/// The CRC-32C (Castagnoli) checksum of `bytes`.
pub uninterp spec fn crc32c_of(bytes: Seq<u8>) -> u32;

/// Relies on `crc::Crc::<u32>::checksum` with the `CRC_32_ISCSI` algorithm, which is
/// CRC-32C.
#[verifier::external_body]
fn crc32c(bytes: &[u8]) -> (r: u32)
    ensures
        r == crc32c_of(bytes@),
{
    crc::Crc::<u32>::new(&crc::CRC_32_ISCSI).checksum(bytes)
}

/// The four little-endian bytes of `x`.
pub open spec fn le_u32(x: u32) -> Seq<u8> {
    seq![
        (x % 256) as u8,
        ((x / 256) % 256) as u8,
        ((x / 65536) % 256) as u8,
        (x / 16777216) as u8,
    ]
}

/// What the crc32c codec decodes `encoded` to: the bytes before the 4-byte checksum,
/// which must match them where checksums are validated.
pub open spec fn crc32c_decoded(encoded: Seq<u8>, validate: bool) -> Option<Seq<u8>> {
    if encoded.len() < 4 {
        None
    } else {
        let data = encoded.subrange(0, encoded.len() - 4);
        if validate && encoded.subrange(encoded.len() - 4, encoded.len() as int) != le_u32(
            crc32c_of(data),
        ) {
            None
        } else {
            Some(data)
        }
    }
}

/// Relies on `zstd::Encoder` (with `include_checksum` and `finish`): writes `decoded` as a
/// zstd frame at `level`. zstd is lossless: the frame decompresses to `decoded`.
#[verifier::external_body]
fn zstd_encode(decoded: &[u8], level: i32, checksum: bool) -> (r: Result<Vec<u8>, String>)
    ensures
        r is Ok <==> zstd_encoded(decoded@, level, checksum) is Some,
        r matches Ok(v) ==> zstd_encoded(decoded@, level, checksum) == Some(v@),
        r matches Ok(v) ==> zstd_decoded(v@) == Some(decoded@),
{
    let mut encoder = zstd::Encoder::new(Vec::new(), level).map_err(|e| e.to_string())?;
    encoder.include_checksum(checksum).map_err(|e| e.to_string())?;
    std::io::Write::write_all(&mut encoder, decoded).map_err(|e| e.to_string())?;
    encoder.finish().map_err(|e| e.to_string())
}

/// Relies on `zstd::decode_all`: decompresses the zstd frames of `encoded`.
#[verifier::external_body]
fn zstd_decode(encoded: &[u8]) -> (r: Result<Vec<u8>, String>)
    ensures
        r is Ok <==> zstd_decoded(encoded@) is Some,
        r matches Ok(v) ==> zstd_decoded(encoded@) == Some(v@),
{
    zstd::decode_all(encoded).map_err(|e| e.to_string())
}

/// Relies on `flate2::write::GzEncoder`: writes `decoded` as a gzip member at `level`
/// (0 to 9). Deflate is lossless: the member decompresses to `decoded`.
#[verifier::external_body]
fn gzip_encode(decoded: &[u8], level: u32) -> (r: Result<Vec<u8>, String>)
    requires
        level <= 9,
    ensures
        r is Ok <==> gzip_encoded(decoded@, level) is Some,
        r matches Ok(v) ==> gzip_encoded(decoded@, level) == Some(v@),
        r matches Ok(v) ==> gzip_decoded(v@) == Some(decoded@),
{
    let mut encoder = flate2::write::GzEncoder::new(Vec::new(), flate2::Compression::new(level));
    std::io::Write::write_all(&mut encoder, decoded).map_err(|e| e.to_string())?;
    encoder.finish().map_err(|e| e.to_string())
}

/// Relies on `flate2::read::GzDecoder`: decompresses the gzip member of `encoded`.
#[verifier::external_body]
fn gzip_decode(encoded: &[u8]) -> (r: Result<Vec<u8>, String>)
    ensures
        r is Ok <==> gzip_decoded(encoded@) is Some,
        r matches Ok(v) ==> gzip_decoded(encoded@) == Some(v@),
{
    let mut out = Vec::new();
    let mut decoder = flate2::read::GzDecoder::new(encoded);
    std::io::Read::read_to_end(&mut decoder, &mut out).map_err(|e| e.to_string())?;
    Ok(out)
}

/// Relies on `bzip2::write::BzEncoder`: writes `decoded` as a bzip2 stream with block
/// size `level` (1 to 9; the library asserts on others). bzip2 is lossless: the stream
/// decompresses to `decoded`.
#[verifier::external_body]
fn bz2_encode(decoded: &[u8], level: u32) -> (r: Result<Vec<u8>, String>)
    requires
        1 <= level <= 9,
    ensures
        r is Ok <==> bz2_encoded(decoded@, level) is Some,
        r matches Ok(v) ==> bz2_encoded(decoded@, level) == Some(v@),
        r matches Ok(v) ==> bz2_decoded(v@) == Some(decoded@),
{
    let mut encoder = bzip2::write::BzEncoder::new(Vec::new(), bzip2::Compression::new(level));
    std::io::Write::write_all(&mut encoder, decoded).map_err(|e| e.to_string())?;
    encoder.finish().map_err(|e| e.to_string())
}

/// Relies on `bzip2::read::BzDecoder`: decompresses the bzip2 stream of `encoded`.
#[verifier::external_body]
fn bz2_decode(encoded: &[u8]) -> (r: Result<Vec<u8>, String>)
    ensures
        r is Ok <==> bz2_decoded(encoded@) is Some,
        r matches Ok(v) ==> bz2_decoded(encoded@) == Some(v@),
{
    let mut out = Vec::new();
    let mut decoder = bzip2::read::BzDecoder::new(encoded);
    std::io::Read::read_to_end(&mut decoder, &mut out).map_err(|e| e.to_string())?;
    Ok(out)
}

/// A codec error.
#[derive(Debug, Clone, PartialEq, Eq)]
pub enum CodecError {
    /// The decoded value has `got` bytes where `expected` were due.
    UnexpectedChunkDecodedSize(u64, u64),
    /// The value's length is not a whole number of elements.
    InvalidByteLength,
    /// A byte range reaches outside the decoded value.
    InvalidByteRange(ByteRange),
    /// A compressor or decompressor failed, with its message.
    IOError(String),
    /// Any other error.
    Other(String),
}

/// The size of an encoded or decoded value.
#[derive(Debug, Clone, Copy, PartialEq, Eq, Structural)]
pub enum BytesRepresentation {
    /// Exactly this many bytes.
    FixedSize(u64),
    /// At most this many bytes.
    BoundedSize(u64),
    /// No bound is known.
    UnboundedSize,
}

/// Byte order of the elements of the encoded value.
#[derive(Debug, Clone, Copy, PartialEq, Eq, Structural)]
pub enum Endianness {
    Little,
    Big,
}

/// The array-to-bytes codec: elements in row-major order, each in the given byte order.
/// Decoded element bytes are little-endian.
#[derive(Debug, Clone, Copy, PartialEq, Eq, Structural)]
pub struct BytesCodec {
    pub endian: Endianness,
}

/// The zstd codec's configuration.
#[derive(Debug, Clone, Copy, PartialEq, Eq, Structural)]
pub struct ZstdCodecConfiguration {
    pub level: i32,
    pub checksum: bool,
}

/// The zstd compressor.
#[derive(Debug, Clone, Copy, PartialEq, Eq, Structural)]
pub struct ZstdCodec {
    pub compression: i32,
    pub checksum: bool,
}

/// The gzip compressor, at a level from 0 to 9.
#[derive(Debug, Clone, Copy, PartialEq, Eq, Structural)]
pub struct GzipCodec {
    level: u32,
}

/// A bzip2 compression level, from 0 to 9.
#[derive(Debug, Clone, Copy, PartialEq, Eq, Structural)]
pub struct Bz2CompressionLevel(u32);

/// The bz2 codec's configuration.
#[derive(Debug, Clone, Copy, PartialEq, Eq, Structural)]
pub struct Bz2CodecConfiguration {
    pub level: Bz2CompressionLevel,
}

/// The bzip2 compressor.
#[derive(Debug, Clone, Copy, PartialEq, Eq, Structural)]
pub struct Bz2Codec {
    pub level: Bz2CompressionLevel,
}

/// The crc32c checksum codec: appends the CRC-32C of the value, little-endian.
#[derive(Debug, Clone, Copy, PartialEq, Eq, Structural)]
pub struct Crc32cCodec;

/// A bytes-to-bytes codec.
#[derive(Debug, Clone, Copy, PartialEq, Eq, Structural)]
pub enum BytesToBytesCodec {
    Zstd(ZstdCodec),
    Gzip(GzipCodec),
    Bz2(Bz2Codec),
    Crc32c(Crc32cCodec),
}

/// A codec as the chain holds it.
#[derive(Debug, Clone, Copy, PartialEq, Eq, Structural)]
pub enum Codec {
    ArrayToBytes(BytesCodec),
    BytesToBytes(BytesToBytesCodec),
}

impl GzipCodec {
    #[verifier::type_invariant]
    spec fn level_in_range(&self) -> bool {
        self.level <= 9
    }

    pub closed spec fn spec_level(&self) -> u32 {
        self.level
    }

    /// The gzip codec at `level`; `None` above 9.
    pub fn new(level: u32) -> (r: Option<GzipCodec>)
        ensures
            r is Some <==> level <= 9,
            r matches Some(c) ==> c.spec_level() == level,
    {
        if level <= 9 {
            Some(GzipCodec { level })
        } else {
            None
        }
    }

    pub fn level(&self) -> (r: u32)
        ensures
            r == self.spec_level(),
            r <= 9,
    {
        proof {
            use_type_invariant(self);
        }
        self.level
    }
}

impl Bz2CompressionLevel {
    #[verifier::type_invariant]
    spec fn level_in_range(&self) -> bool {
        self.0 <= 9
    }

    pub closed spec fn spec_level(&self) -> u32 {
        self.0
    }

    /// The level `compression_level`, or the value back where it is above 9.
    pub fn new(compression_level: u32) -> (r: Result<Bz2CompressionLevel, u32>)
        ensures
            r is Ok <==> compression_level < 10,
            r matches Ok(l) ==> l.spec_level() == compression_level,
            r matches Err(v) ==> v == compression_level,
    {
        if compression_level < 10 {
            Ok(Bz2CompressionLevel(compression_level))
        } else {
            Err(compression_level)
        }
    }

    /// The underlying integer level.
    pub fn as_u32(&self) -> (r: u32)
        ensures
            r == self.spec_level(),
            r <= 9,
    {
        proof {
            use_type_invariant(self);
        }
        self.0
    }
}

/// The name under which the bz2 codec is registered.
pub const BZ2_IDENTIFIER: &'static str = "https://codec.zarrs.dev/bytes_to_bytes/bz2";

/// The name under which the zstd codec is registered.
pub const ZSTD_IDENTIFIER: &'static str = "zstd";

/// Whether `name` names the bz2 codec: its identifier or `bz2`.
pub fn is_name_bz2(name: &str) -> (r: bool)
    ensures
        r == (name@ == BZ2_IDENTIFIER@ || name@ == "bz2"@),
{
    str_eq(name, BZ2_IDENTIFIER) || str_eq(name, "bz2")
}

/// Whether `name` names the zstd codec.
pub fn is_name_zstd(name: &str) -> (r: bool)
    ensures
        r == (name@ == ZSTD_IDENTIFIER@),
{
    str_eq(name, ZSTD_IDENTIFIER)
}

/// Whether two strings hold the same characters.
pub fn str_eq(a: &str, b: &str) -> (r: bool)
    ensures
        r == (a@ == b@),
{
    let n = a.unicode_len();
    if n != b.unicode_len() {
        return false;
    }
    let mut i: usize = 0;
    while i < n
        invariant
            n == a@.len(),
            n == b@.len(),
            i <= n,
            forall|j: int| 0 <= j < i ==> a@[j] == b@[j],
        decreases n - i,
    {
        if a.get_char(i) != b.get_char(i) {
            return false;
        }
        i = i + 1;
    }
    proof {
        assert(a@ =~= b@);
    }
    true
}

/// The bz2 codec built from its configuration.
pub fn create_codec_bz2(configuration: &Bz2CodecConfiguration) -> (r: Codec)
    ensures
        r == Codec::BytesToBytes(BytesToBytesCodec::Bz2(Bz2Codec { level: configuration.level })),
{
    Codec::BytesToBytes(BytesToBytesCodec::Bz2(Bz2Codec::new_with_configuration(configuration)))
}

/// The zstd codec built from its configuration.
pub fn create_codec_zstd(configuration: &ZstdCodecConfiguration) -> (r: Codec)
    ensures
        r == Codec::BytesToBytes(
            BytesToBytesCodec::Zstd(
                ZstdCodec { compression: configuration.level, checksum: configuration.checksum },
            ),
        ),
{
    Codec::BytesToBytes(BytesToBytesCodec::Zstd(ZstdCodec::new_with_configuration(configuration)))
}

impl Bz2Codec {
    pub fn new_with_configuration(configuration: &Bz2CodecConfiguration) -> (r: Bz2Codec)
        ensures
            r.level == configuration.level,
    {
        Bz2Codec { level: configuration.level }
    }
}

/// The bound on the size of a zstd frame of `size` bytes: a 22-byte header and trailer
/// and 3 bytes for each started 1000-byte block.
pub open spec fn zstd_bound(size: int) -> int {
    size + 22 + 3 * ((size + 999) / 1000)
}

impl ZstdCodec {
    /// The zstd codec at `compression`, with a checksum where `checksum`.
    pub fn new(compression: i32, checksum: bool) -> (r: ZstdCodec)
        ensures
            r.compression == compression,
            r.checksum == checksum,
    {
        ZstdCodec { compression, checksum }
    }

    pub fn new_with_configuration(configuration: &ZstdCodecConfiguration) -> (r: ZstdCodec)
        ensures
            r.compression == configuration.level,
            r.checksum == configuration.checksum,
    {
        ZstdCodec { compression: configuration.level, checksum: configuration.checksum }
    }

    /// The configuration this codec was built from.
    pub fn configuration(&self) -> (r: ZstdCodecConfiguration)
        ensures
            r.level == self.compression,
            r.checksum == self.checksum,
    {
        ZstdCodecConfiguration { level: self.compression, checksum: self.checksum }
    }

    /// A partial read through zstd need not first fetch the whole input.
    pub fn partial_decoder_should_cache_input(&self) -> (r: bool)
        ensures
            !r,
    {
        false
    }

    /// A partial read through zstd decodes the whole value, then slices it.
    pub fn partial_decoder_decodes_all(&self) -> (r: bool)
        ensures
            r,
    {
        true
    }

    /// The size of the encoded value, given that of the decoded one.
    pub fn compute_encoded_size(&self, decoded_representation: BytesRepresentation) -> (r:
        BytesRepresentation)
        ensures
            r == match decoded_representation {
                BytesRepresentation::FixedSize(size) | BytesRepresentation::BoundedSize(size) =>
                    if zstd_bound(size as int) <= u64::MAX {
                    BytesRepresentation::BoundedSize(zstd_bound(size as int) as u64)
                } else {
                    BytesRepresentation::UnboundedSize
                },
                BytesRepresentation::UnboundedSize => BytesRepresentation::UnboundedSize,
            },
    {
        match decoded_representation {
            BytesRepresentation::FixedSize(size) | BytesRepresentation::BoundedSize(size) => {
                if size > u64::MAX - 999 {
                    return BytesRepresentation::UnboundedSize;
                }
                let blocks = (size + 999) / 1000;
                if size > u64::MAX - 22 - 3 * blocks {
                    return BytesRepresentation::UnboundedSize;
                }
                BytesRepresentation::BoundedSize(size + 22 + 3 * blocks)
            },
            BytesRepresentation::UnboundedSize => BytesRepresentation::UnboundedSize,
        }
    }
}

/// `value` with the bytes of each `element_size`-byte element reversed.
pub open spec fn swap_elements(value: Seq<u8>, element_size: int) -> Seq<u8> {
    Seq::new(
        value.len(),
        |i: int| value[(i / element_size) * element_size + (element_size - 1 - i % element_size)],
    )
}

proof fn lemma_swap_index(i: int, es: int)
    requires
        es > 0,
        i >= 0,
    ensures
        ({
            let j = (i / es) * es + (es - 1 - i % es);
            &&& j / es == i / es
            &&& j % es == es - 1 - i % es
            &&& (j / es) * es + (es - 1 - j % es) == i
            &&& 0 <= j
            &&& j < (i / es) * es + es
        }),
{
    lemma_fundamental_div_mod(i, es);
    let q = i / es;
    let r = i % es;
    let j = q * es + (es - 1 - r);
    lemma_fundamental_div_mod_converse(j, es, q, es - 1 - r);
    assert(i == q * es + r) by (nonlinear_arith)
        requires
            i == es * q + r,
    ;
    assert(q >= 0) by (nonlinear_arith)
        requires
            i >= 0,
            es > 0,
            i == es * q + r,
            0 <= r < es,
    ;
    assert(q * es >= 0) by (nonlinear_arith)
        requires
            q >= 0,
            es > 0,
    ;
}

/// Reversing the bytes of every element twice gives the value back.
pub proof fn lemma_swap_involution(value: Seq<u8>, es: int)
    requires
        es > 0,
        (value.len() as int) % es == 0,
    ensures
        swap_elements(swap_elements(value, es), es) == value,
        swap_elements(value, es).len() == value.len(),
{
    let once = swap_elements(value, es);
    assert forall|i: int| 0 <= i < value.len() implies swap_elements(once, es)[i] == value[i] by {
        lemma_swap_index(i, es);
        let j = (i / es) * es + (es - 1 - i % es);
        swap_in_bounds(i, es, value.len() as int);
        assert(once[j] == value[(j / es) * es + (es - 1 - j % es)]);
    }
    assert(swap_elements(once, es) =~= value);
}

proof fn swap_in_bounds(i: int, es: int, len: int)
    requires
        es > 0,
        0 <= i < len,
        len % es == 0,
    ensures
        0 <= (i / es) * es + (es - 1 - i % es) < len,
{
    lemma_swap_index(i, es);
    lemma_fundamental_div_mod(len, es);
    lemma_fundamental_div_mod(i, es);
    let q = i / es;
    let n = len / es;
    assert(q < n) by (nonlinear_arith)
        requires
            i < len,
            len == es * n + 0,
            i == es * q + i % es,
            0 <= i % es < es,
            es > 0,
    ;
    assert(q * es + es <= len) by (nonlinear_arith)
        requires
            q < n,
            len == es * n,
            es > 0,
    ;
}

/// Reverses the bytes of every `element_size`-byte element of `value`.
pub fn swap_element_bytes(value: &[u8], element_size: usize) -> (r: Vec<u8>)
    requires
        element_size > 0,
        (value@.len() as int) % (element_size as int) == 0,
    ensures
        r@ == swap_elements(value@, element_size as int),
{
    let n = value.len();
    let mut r: Vec<u8> = Vec::with_capacity(n);
    let mut i: usize = 0;
    while i < n
        invariant
            n == value@.len(),
            element_size > 0,
            (n as int) % (element_size as int) == 0,
            i <= n,
            r@ =~= swap_elements(value@, element_size as int).subrange(0, i as int),
        decreases n - i,
    {
        proof {
            swap_in_bounds(i as int, element_size as int, n as int);
            lemma_fundamental_div_mod(i as int, element_size as int);
        }
        let j = (i / element_size) * element_size + (element_size - 1 - i % element_size);
        r.push(value[j]);
        i = i + 1;
    }
    r
}

/// What the array-to-bytes codec decodes `encoded` to, expecting `decoded_size` bytes of
/// `element_size`-byte elements.
pub open spec fn array_bytes_decoded(
    codec: BytesCodec,
    encoded: Seq<u8>,
    decoded_size: int,
    element_size: int,
) -> Option<Seq<u8>> {
    if encoded.len() != decoded_size {
        None
    } else {
        match codec.endian {
            Endianness::Little => Some(encoded),
            Endianness::Big => Some(swap_elements(encoded, element_size)),
        }
    }
}

/// What one bytes-to-bytes codec decodes `encoded` to; `validate` says whether checksums
/// are checked.
pub open spec fn stage_decoded(codec: BytesToBytesCodec, encoded: Seq<u8>, validate: bool) -> Option<
    Seq<u8>,
> {
    match codec {
        BytesToBytesCodec::Zstd(_) => zstd_decoded(encoded),
        BytesToBytesCodec::Gzip(_) => gzip_decoded(encoded),
        BytesToBytesCodec::Bz2(_) => bz2_decoded(encoded),
        BytesToBytesCodec::Crc32c(_) => crc32c_decoded(encoded, validate),
    }
}

/// What the bytes-to-bytes codecs `stages` decode `encoded` to, the last stage first.
pub open spec fn stages_decoded(
    stages: Seq<BytesToBytesCodec>,
    encoded: Seq<u8>,
    validate: bool,
) -> Option<Seq<u8>>
    decreases stages.len(),
{
    if stages.len() == 0 {
        Some(encoded)
    } else {
        match stage_decoded(stages.last(), encoded, validate) {
            Some(d) => stages_decoded(stages.drop_last(), d, validate),
            None => None,
        }
    }
}

/// What one bytes-to-bytes codec encodes `decoded` to, or `None` where it fails. bz2 at
/// level 0 is refused.
pub open spec fn stage_encoded(codec: BytesToBytesCodec, decoded: Seq<u8>) -> Option<Seq<u8>> {
    match codec {
        BytesToBytesCodec::Zstd(c) => zstd_encoded(decoded, c.compression, c.checksum),
        BytesToBytesCodec::Gzip(c) => gzip_encoded(decoded, c.spec_level()),
        BytesToBytesCodec::Bz2(c) => if c.level.spec_level() == 0 {
            None
        } else {
            bz2_encoded(decoded, c.level.spec_level())
        },
        BytesToBytesCodec::Crc32c(_) => Some(decoded + le_u32(crc32c_of(decoded))),
    }
}

/// What the bytes-to-bytes codecs `stages` encode `decoded` to, the first stage first.
pub open spec fn stages_encoded(stages: Seq<BytesToBytesCodec>, decoded: Seq<u8>) -> Option<
    Seq<u8>,
>
    decreases stages.len(),
{
    if stages.len() == 0 {
        Some(decoded)
    } else {
        match stages_encoded(stages.drop_last(), decoded) {
            Some(m) => stage_encoded(stages.last(), m),
            None => None,
        }
    }
}

/// Some stage is bz2 at level 0, which cannot encode.
pub open spec fn has_bz2_level_zero(stages: Seq<BytesToBytesCodec>) -> bool {
    exists|i: int|
        0 <= i < stages.len() && (#[trigger] stages[i] matches BytesToBytesCodec::Bz2(c)
            && c.level.spec_level() == 0)
}

/// Once a prefix of the stages fails, the whole chain fails.
proof fn lemma_stages_encoded_prefix_none(
    stages: Seq<BytesToBytesCodec>,
    decoded: Seq<u8>,
    i: int,
)
    requires
        0 <= i <= stages.len(),
        stages_encoded(stages.subrange(0, i), decoded) is None,
    ensures
        stages_encoded(stages, decoded) is None,
    decreases stages.len(),
{
    if i == stages.len() {
        assert(stages.subrange(0, i) =~= stages);
    } else {
        assert(stages.drop_last().subrange(0, i) =~= stages.subrange(0, i));
        lemma_stages_encoded_prefix_none(stages.drop_last(), decoded, i);
    }
}

/// Appends the four little-endian bytes of `x`.
fn push_le_u32(v: &mut Vec<u8>, x: u32)
    ensures
        final(v)@ == old(v)@ + le_u32(x),
{
    v.push((x % 256) as u8);
    v.push(((x / 256) % 256) as u8);
    v.push(((x / 65536) % 256) as u8);
    v.push((x / 16777216) as u8);
    proof {
        assert(v@ =~= old(v)@ + le_u32(x));
    }
}

/// The bytes of `x`, little-endian, as a sequence.
fn le_u32_bytes(x: u32) -> (r: Vec<u8>)
    ensures
        r@ == le_u32(x),
{
    let mut r: Vec<u8> = Vec::new();
    push_le_u32(&mut r, x);
    proof {
        assert(r@ =~= le_u32(x));
    }
    r
}

/// `encoded` followed by its CRC-32C.
fn crc32c_encode(decoded: &[u8]) -> (r: Vec<u8>)
    ensures
        r@ == decoded@ + le_u32(crc32c_of(decoded@)),
        forall|validate: bool| crc32c_decoded(r@, validate) == Some(decoded@),
{
    let c = crc32c(decoded);
    let mut r = crate::bytes::copy_all(decoded);
    push_le_u32(&mut r, c);
    proof {
        assert(r@.subrange(0, r@.len() - 4) =~= decoded@);
        assert(r@.subrange(r@.len() - 4, r@.len() as int) =~= le_u32(c));
    }
    r
}

/// The bytes of `encoded` before its checksum, checked against it where `validate`.
fn crc32c_decode(encoded: &[u8], validate: bool) -> (r: Result<Vec<u8>, CodecError>)
    ensures
        r is Ok <==> crc32c_decoded(encoded@, validate) is Some,
        r matches Ok(d) ==> crc32c_decoded(encoded@, validate) == Some(d@),
{
    let n = encoded.len();
    if n < 4 {
        return Err(CodecError::InvalidByteLength);
    }
    let data = crate::bytes::copy_range(encoded, 0, n - 4);
    if validate {
        let stored = crate::bytes::copy_range(encoded, n - 4, n);
        let expected = le_u32_bytes(crc32c(data.as_slice()));
        let mut same = true;
        let mut i: usize = 0;
        proof {
            assert(stored@.subrange(0, 0) =~= expected@.subrange(0, 0));
        }
        while i < 4
            invariant
                stored@.len() == 4,
                expected@.len() == 4,
                i <= 4,
                same == (stored@.subrange(0, i as int) == expected@.subrange(0, i as int)),
            decreases 4 - i,
        {
            let ghost before = same;
            same = same && stored[i] == expected[i];
            proof {
                if before {
                    assert(stored@.subrange(0, i as int) =~= expected@.subrange(0, i as int));
                    if stored@[i as int] == expected@[i as int] {
                        assert(stored@.subrange(0, i + 1) =~= expected@.subrange(0, i + 1));
                    } else {
                        assert(stored@.subrange(0, i + 1)[i as int] != expected@.subrange(0, i + 1)[i as int]);
                    }
                } else {
                    if stored@.subrange(0, i + 1) == expected@.subrange(0, i + 1) {
                        assert(stored@.subrange(0, i as int) =~= stored@.subrange(0, i + 1).subrange(0, i as int));
                        assert(expected@.subrange(0, i as int) =~= expected@.subrange(0, i + 1).subrange(0, i as int));
                    }
                }
            }
            i = i + 1;
        }
        proof {
            assert(stored@.subrange(0, 4) =~= stored@);
            assert(expected@.subrange(0, 4) =~= expected@);
        }
        if !same {
            return Err(CodecError::Other(String::from_str("crc32c checksum mismatch")));
        }
    }
    Ok(data)
}

/// A codec chain: one array-to-bytes codec, then bytes-to-bytes codecs in encoding order.
#[derive(Debug, Clone)]
pub struct CodecChain {
    array_to_bytes: BytesCodec,
    bytes_to_bytes: Vec<BytesToBytesCodec>,
    validate_checksums: bool,
}

/// Why a list of codecs does not make a chain.
#[derive(Debug, Clone, Copy, PartialEq, Eq, Structural)]
pub enum CodecChainError {
    /// No array-to-bytes codec.
    MissingArrayToBytesCodec,
    /// More than one array-to-bytes codec.
    MultipleArrayToBytesCodecs,
    /// An array-to-bytes codec after a bytes-to-bytes codec.
    ArrayToBytesCodecAfterBytesToBytesCodec,
}

/// `codecs` has exactly one array-to-bytes codec and it comes first.
pub open spec fn valid_chain(codecs: Seq<Codec>) -> bool {
    &&& codecs.len() >= 1
    &&& codecs[0] is ArrayToBytes
    &&& forall|i: int| 1 <= i < codecs.len() ==> #[trigger] codecs[i] is BytesToBytes
}

impl CodecChain {
    pub closed spec fn spec_array_to_bytes(&self) -> BytesCodec {
        self.array_to_bytes
    }

    pub closed spec fn spec_bytes_to_bytes(&self) -> Seq<BytesToBytesCodec> {
        self.bytes_to_bytes@
    }

    /// Whether checksum codecs check the checksum on decode.
    pub closed spec fn spec_validate_checksums(&self) -> bool {
        self.validate_checksums
    }

    /// Sets whether checksum codecs check the checksum on decode.
    pub fn set_validate_checksums(&mut self, validate_checksums: bool)
        ensures
            final(self).spec_validate_checksums() == validate_checksums,
            final(self).spec_array_to_bytes() == old(self).spec_array_to_bytes(),
            final(self).spec_bytes_to_bytes() == old(self).spec_bytes_to_bytes(),
    {
        self.validate_checksums = validate_checksums;
    }

    pub fn validate_checksums(&self) -> (r: bool)
        ensures
            r == self.spec_validate_checksums(),
    {
        self.validate_checksums
    }

    /// What the chain decodes `encoded` to, expecting `decoded_size` bytes of
    /// `element_size`-byte elements: the stages run in reverse, then the length is
    /// checked.
    pub open spec fn decoded(&self, encoded: Seq<u8>, decoded_size: int, element_size: int) -> Option<
        Seq<u8>,
    > {
        match stages_decoded(self.spec_bytes_to_bytes(), encoded, self.spec_validate_checksums()) {
            Some(b) => array_bytes_decoded(self.spec_array_to_bytes(), b, decoded_size, element_size),
            None => None,
        }
    }

    /// What the chain encodes `decoded`, of `element_size`-byte elements, to: the
    /// array-to-bytes layout, then each bytes-to-bytes codec in order; `None` where a stage
    /// fails.
    pub open spec fn encoded(&self, decoded: Seq<u8>, element_size: int) -> Option<Seq<u8>> {
        let laid_out = match self.spec_array_to_bytes().endian {
            Endianness::Little => decoded,
            Endianness::Big => swap_elements(decoded, element_size),
        };
        stages_encoded(self.spec_bytes_to_bytes(), laid_out)
    }

    /// A chain of the `bytes` codec in `endian` order and the given compressors.
    pub fn new(array_to_bytes: BytesCodec, bytes_to_bytes: Vec<BytesToBytesCodec>) -> (r: CodecChain)
        ensures
            r.spec_array_to_bytes() == array_to_bytes,
            r.spec_bytes_to_bytes() == bytes_to_bytes@,
            r.spec_validate_checksums(),
    {
        CodecChain { array_to_bytes, bytes_to_bytes, validate_checksums: true }
    }

    /// The chain that `codecs` describe, in order.
    pub fn from_codecs(codecs: &[Codec]) -> (r: Result<CodecChain, CodecChainError>)
        ensures
            r is Ok <==> valid_chain(codecs@),
            r matches Ok(c) ==> c.spec_validate_checksums() && Codec::ArrayToBytes(c.spec_array_to_bytes()) == codecs@[0]
                && c.spec_bytes_to_bytes().len() == codecs@.len() - 1 && (forall|i: int|
                0 <= i < c.spec_bytes_to_bytes().len() ==> Codec::BytesToBytes(
                    #[trigger] c.spec_bytes_to_bytes()[i],
                ) == codecs@[i + 1]),
    {
        if codecs.len() == 0 {
            return Err(CodecChainError::MissingArrayToBytesCodec);
        }
        let first = match codecs[0] {
            Codec::ArrayToBytes(c) => c,
            Codec::BytesToBytes(_) => {
                return Err(CodecChainError::ArrayToBytesCodecAfterBytesToBytesCodec);
            },
        };
        let mut stages: Vec<BytesToBytesCodec> = Vec::new();
        let mut i: usize = 1;
        while i < codecs.len()
            invariant
                1 <= i <= codecs@.len(),
                codecs@[0] is ArrayToBytes,
                forall|j: int| 1 <= j < i ==> #[trigger] codecs@[j] is BytesToBytes,
                stages@.len() == i - 1,
                forall|j: int|
                    0 <= j < stages@.len() ==> Codec::BytesToBytes(#[trigger] stages@[j])
                        == codecs@[j + 1],
            decreases codecs@.len() - i,
        {
            match codecs[i] {
                Codec::BytesToBytes(c) => stages.push(c),
                Codec::ArrayToBytes(_) => {
                    return Err(CodecChainError::MultipleArrayToBytesCodecs);
                },
            }
            i = i + 1;
        }
        Ok(CodecChain { array_to_bytes: first, bytes_to_bytes: stages, validate_checksums: true })
    }

    pub fn array_to_bytes(&self) -> (r: BytesCodec)
        ensures
            r == self.spec_array_to_bytes(),
    {
        self.array_to_bytes
    }

    pub fn bytes_to_bytes(&self) -> (r: &Vec<BytesToBytesCodec>)
        ensures
            r@ == self.spec_bytes_to_bytes(),
    {
        &self.bytes_to_bytes
    }

    /// Encodes `decoded`, a whole number of `element_size`-byte elements: the
    /// array-to-bytes codec, then each compressor in order. What comes out decodes back to
    /// `decoded`.
    pub fn encode(&self, decoded: &[u8], element_size: usize) -> (r: Result<Vec<u8>, CodecError>)
        requires
            element_size > 0,
            (decoded@.len() as int) % (element_size as int) == 0,
        ensures
            r is Ok <==> self.encoded(decoded@, element_size as int) is Some,
            r matches Ok(e) ==> self.encoded(decoded@, element_size as int) == Some(e@),
            r matches Ok(e) ==> self.decoded(e@, decoded@.len() as int, element_size as int)
                == Some(decoded@),
            (r matches Err(CodecError::Other(_))) ==> has_bz2_level_zero(
                self.spec_bytes_to_bytes(),
            ),
            r is Err ==> (r matches Err(CodecError::Other(_))) || (r matches Err(
                CodecError::IOError(_),
            )),
    {
        let mut current = match self.array_to_bytes.endian {
            Endianness::Little => crate::bytes::copy_all(decoded),
            Endianness::Big => swap_element_bytes(decoded, element_size),
        };
        proof {
            lemma_swap_involution(decoded@, element_size as int);
            assert(array_bytes_decoded(
                self.array_to_bytes,
                current@,
                decoded@.len() as int,
                element_size as int,
            ) == Some(decoded@));
            assert(self.bytes_to_bytes@.subrange(0, 0) =~= Seq::<BytesToBytesCodec>::empty());
        }
        let ghost laid_out = current@;
        let mut i: usize = 0;
        while i < self.bytes_to_bytes.len()
            invariant
                i <= self.bytes_to_bytes@.len(),
                laid_out == match self.array_to_bytes.endian {
                    Endianness::Little => decoded@,
                    Endianness::Big => swap_elements(decoded@, element_size as int),
                },
                stages_encoded(self.bytes_to_bytes@.subrange(0, i as int), laid_out) == Some(
                    current@,
                ),
                ({
                    let mid = stages_decoded(
                        self.bytes_to_bytes@.subrange(0, i as int),
                        current@,
                        self.validate_checksums,
                    );
                    &&& mid is Some
                    &&& array_bytes_decoded(
                        self.array_to_bytes,
                        mid->Some_0,
                        decoded@.len() as int,
                        element_size as int,
                    ) == Some(decoded@)
                }),
            decreases self.bytes_to_bytes@.len() - i,
        {
            let next = match self.bytes_to_bytes[i] {
                BytesToBytesCodec::Zstd(c) => zstd_encode(current.as_slice(), c.compression, c.checksum),
                BytesToBytesCodec::Gzip(c) => gzip_encode(current.as_slice(), c.level()),
                BytesToBytesCodec::Bz2(c) => {
                    let level = c.level.as_u32();
                    if level == 0 {
                        proof {
                            let pre = self.bytes_to_bytes@.subrange(0, i + 1);
                            assert(pre.drop_last() =~= self.bytes_to_bytes@.subrange(0, i as int));
                            lemma_stages_encoded_prefix_none(self.bytes_to_bytes@, laid_out, i + 1);
                            assert(self.bytes_to_bytes@[i as int] matches BytesToBytesCodec::Bz2(
                                b,
                            ) && b.level.spec_level() == 0);
                        }
                        return Err(
                            CodecError::Other(String::from_str("bz2 level 0 is not supported")),
                        );
                    }
                    bz2_encode(current.as_slice(), level)
                },
                BytesToBytesCodec::Crc32c(_) => Ok(crc32c_encode(current.as_slice())),
            };
            proof {
                let pre = self.bytes_to_bytes@.subrange(0, i + 1);
                assert(pre.drop_last() =~= self.bytes_to_bytes@.subrange(0, i as int));
                assert(pre.last() == self.bytes_to_bytes@[i as int]);
                if next is Err {
                    lemma_stages_encoded_prefix_none(self.bytes_to_bytes@, laid_out, i + 1);
                }
            }
            let next = match next {
                Ok(n) => n,
                Err(e) => return Err(CodecError::IOError(e)),
            };
            proof {
                let pre = self.bytes_to_bytes@.subrange(0, i + 1);
                assert(pre.drop_last() =~= self.bytes_to_bytes@.subrange(0, i as int));
                assert(pre.last() == self.bytes_to_bytes@[i as int]);
                assert(stage_decoded(pre.last(), next@, self.validate_checksums) == Some(current@));
            }
            current = next;
            i = i + 1;
        }
        proof {
            assert(self.bytes_to_bytes@.subrange(0, i as int) =~= self.bytes_to_bytes@);
        }
        Ok(current)
    }

    /// Decodes `encoded`: each compressor in reverse order, then the array-to-bytes codec,
    /// which checks for `decoded_size` bytes.
    pub fn decode(&self, encoded: &[u8], decoded_size: u64, element_size: usize) -> (r: Result<
        Vec<u8>,
        CodecError,
    >)
        requires
            element_size > 0,
            (decoded_size as int) % (element_size as int) == 0,
        ensures
            r is Ok <==> self.decoded(encoded@, decoded_size as int, element_size as int) is Some,
            r matches Ok(d) ==> self.decoded(encoded@, decoded_size as int, element_size as int)
                == Some(d@),
    {
        let mut current = crate::bytes::copy_all(encoded);
        let mut i: usize = self.bytes_to_bytes.len();
        proof {
            assert(self.bytes_to_bytes@.subrange(0, i as int) =~= self.bytes_to_bytes@);
        }
        while i > 0
            invariant
                i <= self.bytes_to_bytes@.len(),
                stages_decoded(self.bytes_to_bytes@, encoded@, self.validate_checksums)
                    == stages_decoded(
                    self.bytes_to_bytes@.subrange(0, i as int),
                    current@,
                    self.validate_checksums,
                ),
            decreases i,
        {
            let ghost pre = self.bytes_to_bytes@.subrange(0, i as int);
            proof {
                assert(pre.drop_last() =~= self.bytes_to_bytes@.subrange(0, i - 1));
                assert(pre.last() == self.bytes_to_bytes@[i - 1]);
            }
            let next = match self.bytes_to_bytes[i - 1] {
                BytesToBytesCodec::Zstd(_) => zstd_decode(current.as_slice()),
                BytesToBytesCodec::Gzip(_) => gzip_decode(current.as_slice()),
                BytesToBytesCodec::Bz2(_) => bz2_decode(current.as_slice()),
                BytesToBytesCodec::Crc32c(_) => {
                    match crc32c_decode(current.as_slice(), self.validate_checksums) {
                        Ok(d) => Ok(d),
                        Err(e) => return Err(e),
                    }
                },
            };
            current = match next {
                Ok(n) => n,
                Err(e) => return Err(CodecError::IOError(e)),
            };
            i = i - 1;
        }
        proof {
            assert(self.bytes_to_bytes@.subrange(0, 0) =~= Seq::<BytesToBytesCodec>::empty());
        }
        if current.len() as u64 != decoded_size {
            return Err(CodecError::UnexpectedChunkDecodedSize(decoded_size, current.len() as u64));
        }
        match self.array_to_bytes.endian {
            Endianness::Little => Ok(current),
            Endianness::Big => Ok(swap_element_bytes(current.as_slice(), element_size)),
        }
    }

    /// The bytes of the decoded value that each of `byte_ranges` selects, in order. The
    /// compressors must decode from the start, so the whole value is decoded, then sliced.
    pub fn partial_decode(
        &self,
        encoded: &[u8],
        byte_ranges: &[ByteRange],
        decoded_size: u64,
        element_size: usize,
    ) -> (r: Result<Vec<Vec<u8>>, CodecError>)
        requires
            element_size > 0,
            (decoded_size as int) % (element_size as int) == 0,
        ensures
            ({
                let full = self.decoded(encoded@, decoded_size as int, element_size as int);
                &&& r is Ok <==> full is Some && ranges_valid(byte_ranges@, decoded_size as int)
                &&& r matches Ok(parts) ==> slices_of(parts@, full->Some_0, byte_ranges@)
            }),
    {
        let decoded = match self.decode(encoded, decoded_size, element_size) {
            Ok(d) => d,
            Err(e) => return Err(e),
        };
        if let Some(range) = crate::bytes::first_invalid_range(byte_ranges, decoded.len() as u64) {
            return Err(CodecError::InvalidByteRange(range));
        }
        match extract_byte_ranges(decoded.as_slice(), byte_ranges) {
            Some(parts) => Ok(parts),
            None => Err(CodecError::Other(String::new())),
        }
    }
}

/// A codec as metadata names it: its name and the configuration fields read here.
#[derive(Debug, Clone, PartialEq, Eq)]
pub struct CodecMetadata {
    pub name: String,
    pub level: Option<i64>,
    pub checksum: Option<bool>,
    pub endian: Option<Endianness>,
}

/// The codec that `metadata` names, where its configuration is valid: `bytes` (little
/// endian unless given), `gzip` and bz2 with a level from 0 to 9, `zstd` with an `i32`
/// level and an optional checksum flag, and `crc32c`.
pub fn codec_from_metadata(metadata: &CodecMetadata) -> (r: Option<Codec>)
    ensures
        metadata.name@ == "bytes"@ ==> r == Some(
            Codec::ArrayToBytes(
                BytesCodec {
                    endian: match metadata.endian {
                        Some(e) => e,
                        None => Endianness::Little,
                    },
                },
            ),
        ),
        metadata.name@ == "gzip"@ ==> (r is Some <==> (metadata.level matches Some(l) && 0 <= l
            <= 9)),
        metadata.name@ == "gzip"@ ==> (r matches Some(Codec::BytesToBytes(BytesToBytesCodec::Gzip(
            g,
        ))) ==> Some(g.spec_level() as i64) == metadata.level),
        metadata.name@ == "gzip"@ ==> (r is Some ==> r matches Some(
            Codec::BytesToBytes(BytesToBytesCodec::Gzip(_)),
        )),
        metadata.name@ == ZSTD_IDENTIFIER@ ==> (r is Some <==> (metadata.level matches Some(l)
            && i32::MIN <= l <= i32::MAX)),
        metadata.name@ == ZSTD_IDENTIFIER@ ==> (r matches Some(c) ==> metadata.level matches Some(
            l,
        ) && c == Codec::BytesToBytes(
            BytesToBytesCodec::Zstd(
                ZstdCodec {
                    compression: l as i32,
                    checksum: match metadata.checksum {
                        Some(b) => b,
                        None => false,
                    },
                },
            ),
        )),
        (metadata.name@ == BZ2_IDENTIFIER@ || metadata.name@ == "bz2"@) ==> (r is Some <==> (
        metadata.level matches Some(l) && 0 <= l <= 9)),
        (metadata.name@ == BZ2_IDENTIFIER@ || metadata.name@ == "bz2"@) ==> (r matches Some(
            Codec::BytesToBytes(BytesToBytesCodec::Bz2(b)),
        ) ==> Some(b.level.spec_level() as i64) == metadata.level),
        (metadata.name@ == BZ2_IDENTIFIER@ || metadata.name@ == "bz2"@) ==> (r is Some ==> r matches Some(
            Codec::BytesToBytes(BytesToBytesCodec::Bz2(_)),
        )),
        metadata.name@ == "crc32c"@ ==> r == Some(
            Codec::BytesToBytes(BytesToBytesCodec::Crc32c(Crc32cCodec)),
        ),
        r is Some ==> metadata.name@ == "bytes"@ || metadata.name@ == "gzip"@ || metadata.name@
            == ZSTD_IDENTIFIER@ || metadata.name@ == BZ2_IDENTIFIER@ || metadata.name@ == "bz2"@
            || metadata.name@ == "crc32c"@,
{
    proof {
        reveal_strlit("bytes");
        reveal_strlit("gzip");
        reveal_strlit("zstd");
        reveal_strlit("bz2");
        reveal_strlit("https://codec.zarrs.dev/bytes_to_bytes/bz2");
        reveal_strlit("crc32c");
        assert("crc32c"@[0] == 'c');
        assert("crc32c"@ != "bytes"@ && "crc32c"@ != "gzip"@ && "crc32c"@ != "zstd"@);
        assert("crc32c"@ != "bz2"@ && "crc32c"@ != "https://codec.zarrs.dev/bytes_to_bytes/bz2"@);
        assert(ZSTD_IDENTIFIER@ == "zstd"@);
        assert(BZ2_IDENTIFIER@ == "https://codec.zarrs.dev/bytes_to_bytes/bz2"@);
        assert("bytes"@[0] == 'b' && "gzip"@[0] == 'g' && "zstd"@[0] == 'z' && "bz2"@[1] == 'z');
        assert("bytes"@[1] == 'y' && "https://codec.zarrs.dev/bytes_to_bytes/bz2"@[0] == 'h');
        assert("bytes"@ != "gzip"@ && "bytes"@ != "zstd"@ && "bytes"@ != "bz2"@);
        assert("gzip"@ != "zstd"@ && "gzip"@ != "bz2"@ && "zstd"@ != "bz2"@);
        assert("bytes"@ != BZ2_IDENTIFIER@ && "gzip"@ != BZ2_IDENTIFIER@ && "zstd"@ != BZ2_IDENTIFIER@);
    }
    let name = metadata.name.as_str();
    if str_eq(name, "bytes") {
        let endian = match metadata.endian {
            Some(e) => e,
            None => Endianness::Little,
        };
        return Some(Codec::ArrayToBytes(BytesCodec { endian }));
    }
    if str_eq(name, "gzip") {
        return match metadata.level {
            Some(l) => if 0 <= l && l <= 9 {
                match GzipCodec::new(l as u32) {
                    Some(g) => Some(Codec::BytesToBytes(BytesToBytesCodec::Gzip(g))),
                    None => None,
                }
            } else {
                None
            },
            None => None,
        };
    }
    if is_name_zstd(name) {
        return match metadata.level {
            Some(l) => if i32::MIN as i64 <= l && l <= i32::MAX as i64 {
                let checksum = match metadata.checksum {
                    Some(b) => b,
                    None => false,
                };
                Some(
                    Codec::BytesToBytes(
                        BytesToBytesCodec::Zstd(ZstdCodec { compression: l as i32, checksum }),
                    ),
                )
            } else {
                None
            },
            None => None,
        };
    }
    if str_eq(name, "crc32c") {
        return Some(Codec::BytesToBytes(BytesToBytesCodec::Crc32c(Crc32cCodec)));
    }
    if is_name_bz2(name) {
        return match metadata.level {
            Some(l) => if 0 <= l && l <= 9 {
                match Bz2CompressionLevel::new(l as u32) {
                    Ok(level) => Some(create_codec_bz2(&Bz2CodecConfiguration { level })),
                    Err(_) => None,
                }
            } else {
                None
            },
            None => None,
        };
    }
    None
}

/// The metadata that names `codec`.
pub fn codec_metadata(codec: &Codec) -> (r: CodecMetadata)
    ensures
        codec_from_metadata_spec(r, *codec),
{
    match codec {
        Codec::ArrayToBytes(b) => CodecMetadata {
            name: String::from_str("bytes"),
            level: None,
            checksum: None,
            endian: Some(b.endian),
        },
        Codec::BytesToBytes(BytesToBytesCodec::Gzip(g)) => CodecMetadata {
            name: String::from_str("gzip"),
            level: Some(g.level() as i64),
            checksum: None,
            endian: None,
        },
        Codec::BytesToBytes(BytesToBytesCodec::Zstd(z)) => CodecMetadata {
            name: String::from_str(ZSTD_IDENTIFIER),
            level: Some(z.compression as i64),
            checksum: Some(z.checksum),
            endian: None,
        },
        Codec::BytesToBytes(BytesToBytesCodec::Bz2(b)) => CodecMetadata {
            name: String::from_str(BZ2_IDENTIFIER),
            level: Some(b.level.as_u32() as i64),
            checksum: None,
            endian: None,
        },
        Codec::BytesToBytes(BytesToBytesCodec::Crc32c(_)) => CodecMetadata {
            name: String::from_str("crc32c"),
            level: None,
            checksum: None,
            endian: None,
        },
    }
}

/// `metadata` names `codec`, with its whole configuration.
pub open spec fn codec_from_metadata_spec(metadata: CodecMetadata, codec: Codec) -> bool {
    match codec {
        Codec::ArrayToBytes(b) => metadata.name@ == "bytes"@ && metadata.endian == Some(b.endian),
        Codec::BytesToBytes(BytesToBytesCodec::Gzip(g)) => metadata.name@ == "gzip"@
            && metadata.level == Some(g.spec_level() as i64),
        Codec::BytesToBytes(BytesToBytesCodec::Zstd(z)) => metadata.name@ == ZSTD_IDENTIFIER@
            && metadata.level == Some(z.compression as i64) && metadata.checksum == Some(z.checksum),
        Codec::BytesToBytes(BytesToBytesCodec::Bz2(b)) => metadata.name@ == BZ2_IDENTIFIER@
            && metadata.level == Some(b.level.spec_level() as i64),
        Codec::BytesToBytes(BytesToBytesCodec::Crc32c(_)) => metadata.name@ == "crc32c"@,
    }
}

} // verus!
