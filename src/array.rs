//! Arrays: metadata, and chunk and region reads and writes over a store.
use crate::array_subset::{
    gap, lemma_element_of_position, min_int, lemma_position_of_element, ArraySubset,
    IncompatibleDimensionalityError,
};
use crate::bytes::{copy_all, is_repeat_of, lemma_repeat_len, repeat, repeat_pattern};
use crate::chunk_grid::{
    chunk_element, chunk_of, grid_shape_of, lemma_chunk_decompose, lemma_chunk_in_grid,
    within_chunk, RegularChunkGrid,
};
use crate::chunk_key_encoding::{encoded_key, lemma_key_round_trip, ChunkKeyEncoding};
use crate::codec::{Codec, CodecChain, CodecError};
use crate::indices::{
    all_positive, in_bounds, lemma_num_elements_nonneg, lemma_num_elements_zero,
    lemma_ravel_unravel, lemma_unravel_ravel, num_elements, ravel, ravel_indices, unravel,
    unravel_index,
};
use crate::storage::{
    data_key, data_key_of, path_body, NodePath, ReadableStorageTraits, StorageError,
    WritableStorageTraits,
};
use vstd::prelude::*;
use vstd::string::{StrSliceExecFns, StringExecFns};

verus! {

/// The element types of an array.
#[derive(Debug, Clone, Copy, PartialEq, Eq, Structural)]
pub enum DataType {
    Bool,
    Int8,
    Int16,
    Int32,
    Int64,
    UInt8,
    UInt16,
    UInt32,
    UInt64,
    Float16,
    BFloat16,
    Float32,
    Float64,
    Complex64,
    Complex128,
    /// Raw bits, of a width in bits that is a positive multiple of 8.
    RawBits(usize),
}

impl DataType {
    /// The size of one element in bytes.
    pub open spec fn spec_size(&self) -> int {
        match self {
            DataType::Bool | DataType::Int8 | DataType::UInt8 => 1,
            DataType::Int16 | DataType::UInt16 | DataType::Float16 | DataType::BFloat16 => 2,
            DataType::Int32 | DataType::UInt32 | DataType::Float32 => 4,
            DataType::Int64 | DataType::UInt64 | DataType::Float64 | DataType::Complex64 => 8,
            DataType::Complex128 => 16,
            DataType::RawBits(bits) => *bits as int / 8,
        }
    }

    /// A raw-bits width is a positive multiple of 8.
    pub open spec fn valid(&self) -> bool {
        match self {
            DataType::RawBits(bits) => *bits > 0 && *bits % 8 == 0,
            _ => true,
        }
    }

    /// The size of one element in bytes.
    pub fn size(&self) -> (r: usize)
        ensures
            r == self.spec_size(),
    {
        match self {
            DataType::Bool | DataType::Int8 | DataType::UInt8 => 1,
            DataType::Int16 | DataType::UInt16 | DataType::Float16 | DataType::BFloat16 => 2,
            DataType::Int32 | DataType::UInt32 | DataType::Float32 => 4,
            DataType::Int64 | DataType::UInt64 | DataType::Float64 | DataType::Complex64 => 8,
            DataType::Complex128 => 16,
            DataType::RawBits(bits) => *bits / 8,
        }
    }
}

/// The metadata name of a data type.
pub open spec fn data_type_name(data_type: DataType) -> Seq<char> {
    match data_type {
        DataType::Bool => "bool"@,
        DataType::Int8 => "int8"@,
        DataType::Int16 => "int16"@,
        DataType::Int32 => "int32"@,
        DataType::Int64 => "int64"@,
        DataType::UInt8 => "uint8"@,
        DataType::UInt16 => "uint16"@,
        DataType::UInt32 => "uint32"@,
        DataType::UInt64 => "uint64"@,
        DataType::Float16 => "float16"@,
        DataType::BFloat16 => "bfloat16"@,
        DataType::Float32 => "float32"@,
        DataType::Float64 => "float64"@,
        DataType::Complex64 => "complex64"@,
        DataType::Complex128 => "complex128"@,
        DataType::RawBits(bits) => seq!['r'] + crate::chunk_key_encoding::decimal(bits as nat),
    }
}

/// The data types that have a fixed name, in one list.
fn fixed_data_types() -> (r: Vec<DataType>)
    ensures
        forall|i: int| 0 <= i < r@.len() ==> !(#[trigger] r@[i] is RawBits),
        forall|dt: DataType| !(dt is RawBits) ==> #[trigger] r@.contains(dt),
{
    let r = vec![
        DataType::Bool,
        DataType::Int8,
        DataType::Int16,
        DataType::Int32,
        DataType::Int64,
        DataType::UInt8,
        DataType::UInt16,
        DataType::UInt32,
        DataType::UInt64,
        DataType::Float16,
        DataType::BFloat16,
        DataType::Float32,
        DataType::Float64,
        DataType::Complex64,
        DataType::Complex128,
    ];
    proof {
        assert forall|dt: DataType| !(dt is RawBits) implies #[trigger] r@.contains(dt) by {
            match dt {
                DataType::Bool => assert(r@[0] == dt),
                DataType::Int8 => assert(r@[1] == dt),
                DataType::Int16 => assert(r@[2] == dt),
                DataType::Int32 => assert(r@[3] == dt),
                DataType::Int64 => assert(r@[4] == dt),
                DataType::UInt8 => assert(r@[5] == dt),
                DataType::UInt16 => assert(r@[6] == dt),
                DataType::UInt32 => assert(r@[7] == dt),
                DataType::UInt64 => assert(r@[8] == dt),
                DataType::Float16 => assert(r@[9] == dt),
                DataType::BFloat16 => assert(r@[10] == dt),
                DataType::Float32 => assert(r@[11] == dt),
                DataType::Float64 => assert(r@[12] == dt),
                DataType::Complex64 => assert(r@[13] == dt),
                DataType::Complex128 => assert(r@[14] == dt),
                DataType::RawBits(_) => {},
            }
        }
    }
    r
}

impl DataType {
    /// The data type's metadata name: `uint8`, `float32`, `r16` and so on.
    pub fn name(&self) -> (r: String)
        ensures
            r@ == data_type_name(*self),
    {
        let r = match self {
            DataType::Bool => String::from_str("bool"),
            DataType::Int8 => String::from_str("int8"),
            DataType::Int16 => String::from_str("int16"),
            DataType::Int32 => String::from_str("int32"),
            DataType::Int64 => String::from_str("int64"),
            DataType::UInt8 => String::from_str("uint8"),
            DataType::UInt16 => String::from_str("uint16"),
            DataType::UInt32 => String::from_str("uint32"),
            DataType::UInt64 => String::from_str("uint64"),
            DataType::Float16 => String::from_str("float16"),
            DataType::BFloat16 => String::from_str("bfloat16"),
            DataType::Float32 => String::from_str("float32"),
            DataType::Float64 => String::from_str("float64"),
            DataType::Complex64 => String::from_str("complex64"),
            DataType::Complex128 => String::from_str("complex128"),
            DataType::RawBits(bits) => {
                let mut s = String::new();
                crate::chunk_key_encoding::push_char(&mut s, 'r');
                crate::chunk_key_encoding::push_decimal(&mut s, *bits as u64);
                proof {
                    assert(s@ =~= data_type_name(*self));
                }
                s
            },
        };
        r
    }

    /// The data type named `name`; `None` where no data type has that name.
    #[verifier::loop_isolation(false)]
    pub fn from_name(name: &str) -> (r: Option<DataType>)
        ensures
            r matches Some(dt) ==> data_type_name(dt) == name@,
            (exists|dt: DataType| !(dt is RawBits) && data_type_name(dt) == name@) ==> r is Some,
    {
        let fixed = fixed_data_types();
        let mut i: usize = 0;
        while i < fixed.len()
            invariant
                i <= fixed@.len(),
                forall|j: int| 0 <= j < fixed@.len() ==> !(#[trigger] fixed@[j] is RawBits),
                forall|dt: DataType| !(dt is RawBits) ==> #[trigger] fixed@.contains(dt),
                forall|j: int| 0 <= j < i ==> data_type_name(#[trigger] fixed@[j]) != name@,
            decreases fixed@.len() - i,
        {
            let candidate = fixed[i].name();
            if crate::codec::str_eq(candidate.as_str(), name) {
                return Some(fixed[i]);
            }
            i = i + 1;
        }
        proof {
            assert forall|dt: DataType| !(dt is RawBits) implies data_type_name(dt) != name@ by {
                assert(fixed@.contains(dt));
                let j = choose|j: int| 0 <= j < fixed@.len() && fixed@[j] == dt;
            }
        }
        let n = name.unicode_len();
        if n < 2 || name.get_char(0) != 'r' || n > 21 {
            return None;
        }
        let mut bits: u64 = 0;
        let mut k: usize = 1;
        while k < n
            invariant
                n == name@.len(),
                1 <= k <= n,
                n <= 21,
            decreases n - k,
        {
            let c = name.get_char(k);
            let d: u64 = if c == '0' {
                0
            } else if c == '1' {
                1
            } else if c == '2' {
                2
            } else if c == '3' {
                3
            } else if c == '4' {
                4
            } else if c == '5' {
                5
            } else if c == '6' {
                6
            } else if c == '7' {
                7
            } else if c == '8' {
                8
            } else if c == '9' {
                9
            } else {
                return None;
            };
            if bits > (u64::MAX - d) / 10 {
                return None;
            }
            bits = bits * 10 + d;
            k = k + 1;
        }
        if bits == 0 || bits % 8 != 0 || bits > usize::MAX as u64 {
            return None;
        }
        let dt = DataType::RawBits(bits as usize);
        let canonical = dt.name();
        if crate::codec::str_eq(canonical.as_str(), name) {
            Some(dt)
        } else {
            None
        }
    }
}

/// A field of array metadata that this library does not know.
#[derive(Debug, Clone, PartialEq, Eq)]
pub struct AdditionalField {
    /// The field's name.
    pub name: String,
    /// The field's value, as JSON text.
    pub value: String,
    /// Whether the value is an object holding `"must_understand": false`.
    pub must_understand: bool,
}

/// Array metadata, with each part in the form the array works with.
#[derive(Debug, Clone, PartialEq, Eq)]
pub struct ArrayMetadataV3 {
    pub zarr_format: usize,
    pub node_type: String,
    pub shape: Vec<u64>,
    pub data_type: DataType,
    /// The chunk shape of the regular chunk grid.
    pub chunk_grid: Vec<u64>,
    pub chunk_key_encoding: ChunkKeyEncoding,
    /// The fill value's element bytes, little-endian.
    pub fill_value: Vec<u8>,
    pub codecs: Vec<Codec>,
    /// The attributes, as JSON text.
    pub attributes: String,
    pub storage_transformers: Vec<String>,
    pub dimension_names: Option<Vec<Option<String>>>,
    pub additional_fields: Vec<AdditionalField>,
}

/// Why an array cannot be made from its metadata.
#[derive(Debug, Clone, PartialEq, Eq)]
pub enum ArrayCreateError {
    /// The node path is invalid.
    InvalidPath(String),
    /// `zarr_format` is not 3.
    InvalidZarrFormat(usize),
    /// `node_type` is not `array`.
    InvalidNodeType(String),
    /// A field that must be understood is not; its name.
    UnsupportedAdditionalField(String),
    /// A raw-bits data type whose width is not a positive multiple of 8.
    InvalidDataType,
    /// A chunk extent is zero.
    InvalidChunkGrid,
    /// The chunk grid has `.0` dimensions, the shape `.1`.
    InvalidChunkGridDimensionality(usize, usize),
    /// The fill value has `.0` bytes where the data type has `.1`.
    InvalidFillValue(usize, usize),
    /// The codecs do not make a chain.
    InvalidCodecs,
    /// There are `.0` dimension names for `.1` dimensions.
    InvalidDimensionNames(usize, usize),
    /// An extent plus the chunk extent, or a chunk's size in bytes, does not fit the
    /// machine.
    ShapeTooLarge,
}

/// Why an array operation failed.
#[derive(Debug, Clone, PartialEq, Eq)]
pub enum ArrayError {
    /// The chunk coordinates lie outside the chunk grid, or have the wrong rank.
    InvalidChunkGridIndicesError(Vec<u64>),
    /// A subset has the wrong rank.
    IncompatibleDimensionalityError(IncompatibleDimensionalityError),
    /// A subset reaches outside the array or chunk.
    InvalidArraySubset,
    /// The bytes given have `.0` bytes where `.1` were due.
    InvalidBytesInputSize(usize, u64),
    /// The region's size in bytes does not fit the machine.
    TooLarge,
    /// A chunk could not be encoded or decoded.
    CodecError(CodecError),
    /// The store failed.
    StorageError(StorageError),
}

/// A chunked array in a store.
pub struct Array<TStorage> {
    storage: TStorage,
    path: NodePath,
    shape: Vec<u64>,
    data_type: DataType,
    chunk_grid: RegularChunkGrid,
    chunk_key_encoding: ChunkKeyEncoding,
    fill_value: Vec<u8>,
    codecs: CodecChain,
    attributes: String,
    storage_transformers: Vec<String>,
    dimension_names: Option<Vec<Option<String>>>,
    additional_fields: Vec<AdditionalField>,
    parallel_codecs: bool,
    include_zarrs_metadata: bool,
    store_empty_chunks: bool,
}

/// `bytes` with the `len` bytes at `at` replaced by `value`.
pub open spec fn splice(bytes: Seq<u8>, at: int, value: Seq<u8>) -> Seq<u8> {
    bytes.subrange(0, at) + value + bytes.subrange(at + value.len(), bytes.len() as int)
}

/// The shapes fit: each extent plus its chunk extent fits in a `u64`, and a chunk's
/// size in bytes fits in a `usize`.
pub open spec fn shapes_fit(shape: Seq<u64>, chunk_shape: Seq<u64>, element_size: int) -> bool {
    &&& forall|d: int|
        0 <= d < shape.len() ==> #[trigger] shape[d] + chunk_shape[d] <= u64::MAX
    &&& num_elements(chunk_shape) * element_size <= usize::MAX
}

impl<TStorage> Array<TStorage> {
    pub closed spec fn spec_shape(&self) -> Seq<u64> {
        self.shape@
    }

    pub closed spec fn spec_chunk_shape(&self) -> Seq<u64> {
        self.chunk_grid.spec_chunk_shape()
    }

    pub closed spec fn spec_data_type(&self) -> DataType {
        self.data_type
    }

    pub closed spec fn spec_fill_value(&self) -> Seq<u8> {
        self.fill_value@
    }

    pub closed spec fn spec_codecs(&self) -> CodecChain {
        self.codecs
    }

    pub closed spec fn spec_path(&self) -> Seq<char> {
        self.path@
    }

    pub closed spec fn spec_chunk_key_encoding(&self) -> ChunkKeyEncoding {
        self.chunk_key_encoding
    }

    pub closed spec fn spec_store_empty_chunks(&self) -> bool {
        self.store_empty_chunks
    }

    pub closed spec fn spec_storage(&self) -> &TStorage {
        &self.storage
    }

    /// The size of one element in bytes.
    pub open spec fn element_size(&self) -> int {
        self.spec_data_type().spec_size()
    }

    /// The size of a decoded chunk in bytes.
    pub open spec fn chunk_num_bytes(&self) -> int {
        num_elements(self.spec_chunk_shape()) * self.element_size()
    }

    /// The store key of chunk `chunk`.
    pub open spec fn chunk_key(&self, chunk: Seq<u64>) -> Seq<char> {
        data_key_of(self.spec_path(), encoded_key(self.spec_chunk_key_encoding(), chunk))
    }

    /// The bytes of a chunk that holds only the fill value.
    pub open spec fn fill_chunk(&self) -> Seq<u8> {
        repeat(self.spec_fill_value(), num_elements(self.spec_chunk_shape()) as nat)
    }

    /// Chunk `chunk` lies in the chunk grid.
    pub open spec fn chunk_in_grid(&self, chunk: Seq<u64>) -> bool {
        in_bounds(chunk, grid_shape_of(self.spec_shape(), self.spec_chunk_shape()))
    }

    /// The decoded bytes of chunk `chunk` in a store holding `values`: the fill value where
    /// the chunk is not stored, `None` where its stored bytes do not decode.
    pub open spec fn chunk_content(&self, values: Map<Seq<char>, Seq<u8>>, chunk: Seq<u64>) -> Option<
        Seq<u8>,
    > {
        let key = self.chunk_key(chunk);
        if values.contains_key(key) {
            self.spec_codecs().decoded(values[key], self.chunk_num_bytes(), self.element_size())
        } else {
            Some(self.fill_chunk())
        }
    }

    /// The position of the element at `indices` within its chunk.
    pub open spec fn offset_in_chunk(&self, indices: Seq<u64>) -> int {
        ravel(within_chunk(indices, self.spec_chunk_shape()), self.spec_chunk_shape())
    }

    /// The bytes of element `indices` in chunk bytes `content`.
    pub open spec fn element_of(&self, content: Seq<u8>, indices: Seq<u64>) -> Seq<u8> {
        let o = self.offset_in_chunk(indices);
        content.subrange(o * self.element_size(), o * self.element_size() + self.element_size())
    }

    /// The bytes of the element at `indices` in a store holding `values`, or `None` where
    /// its chunk does not decode.
    pub open spec fn element(&self, values: Map<Seq<char>, Seq<u8>>, indices: Seq<u64>) -> Option<
        Seq<u8>,
    > {
        match self.chunk_content(values, chunk_of(indices, self.spec_chunk_shape())) {
            Some(content) => Some(self.element_of(content, indices)),
            None => None,
        }
    }

    /// The bytes of element `k` of `bytes`, a run of elements.
    pub open spec fn nth_element(&self, bytes: Seq<u8>, k: int) -> Seq<u8> {
        bytes.subrange(k * self.element_size(), k * self.element_size() + self.element_size())
    }

    /// The subset lies inside the array.
    pub open spec fn subset_inside(&self, subset: ArraySubset) -> bool {
        &&& subset.spec_start().len() == self.spec_shape().len()
        &&& forall|d: int|
            0 <= d < self.spec_shape().len() ==> #[trigger] subset.spec_start()[d]
                + subset.spec_shape()[d] <= self.spec_shape()[d]
    }

    /// The grid's chunk extents are positive and the path is valid.
    pub closed spec fn parts_wf(&self) -> bool {
        &&& self.chunk_grid.wf()
        &&& self.path.wf()
    }

    pub open spec fn wf(&self) -> bool {
        &&& self.parts_wf()
        &&& all_positive(self.spec_chunk_shape())
        &&& self.spec_chunk_shape().len() == self.spec_shape().len()
        &&& self.spec_data_type().valid()
        &&& self.element_size() >= 1
        &&& self.spec_fill_value().len() == self.element_size()
        &&& shapes_fit(self.spec_shape(), self.spec_chunk_shape(), self.element_size())
    }
}

proof fn lemma_data_key_injective(path: Seq<char>, a: Seq<char>, b: Seq<char>)
    requires
        data_key_of(path, a) == data_key_of(path, b),
    ensures
        a == b,
{
    if path.len() != 1 {
        let p = path_body(path).push('/');
        assert((p + a).subrange(p.len() as int, (p + a).len() as int) =~= a);
        assert((p + b).subrange(p.len() as int, (p + b).len() as int) =~= b);
    }
}

/// Distinct chunks of one rank have distinct keys.
pub proof fn lemma_chunk_key_injective(
    path: Seq<char>,
    encoding: ChunkKeyEncoding,
    a: Seq<u64>,
    b: Seq<u64>,
)
    requires
        a.len() == b.len(),
        data_key_of(path, encoded_key(encoding, a)) == data_key_of(path, encoded_key(encoding, b)),
    ensures
        a == b,
{
    lemma_data_key_injective(path, encoded_key(encoding, a), encoded_key(encoding, b));
    if a.len() == 0 {
        assert(a =~= b);
    } else {
        lemma_key_round_trip(encoding, a);
        lemma_key_round_trip(encoding, b);
    }
}

/// Whether two index vectors are equal.
fn same_indices(a: &Vec<u64>, b: &Vec<u64>) -> (r: bool)
    ensures
        r == (a@ == b@),
{
    if a.len() != b.len() {
        return false;
    }
    let mut d: usize = 0;
    while d < a.len()
        invariant
            a@.len() == b@.len(),
            d <= a@.len(),
            forall|e: int| 0 <= e < d ==> a@[e] == b@[e],
        decreases a@.len() - d,
    {
        if a[d] != b[d] {
            return false;
        }
        d = d + 1;
    }
    proof {
        assert(a@ =~= b@);
    }
    true
}

/// Appends `src[start..end]` to `out`.
fn append_range(out: &mut Vec<u8>, src: &[u8], start: usize, end: usize)
    requires
        start <= end <= src@.len(),
    ensures
        final(out)@ == old(out)@ + src@.subrange(start as int, end as int),
{
    let mut i: usize = start;
    while i < end
        invariant
            start <= i <= end,
            end <= src@.len(),
            out@ == old(out)@ + src@.subrange(start as int, i as int),
        decreases end - i,
    {
        out.push(src[i]);
        proof {
            assert(out@ =~= old(out)@ + src@.subrange(start as int, i + 1));
        }
        i = i + 1;
    }
}

/// Writes `src[start..start + len]` over `dst[at..at + len]`.
fn write_range(dst: &mut Vec<u8>, at: usize, src: &[u8], start: usize, len: usize)
    requires
        at + len <= old(dst)@.len(),
        start + len <= src@.len(),
    ensures
        final(dst)@ == splice(old(dst)@, at as int, src@.subrange(start as int, start + len)),
{
    let n = dst.len();
    let m = src.len();
    let mut i: usize = 0;
    while i < len
        invariant
            n == dst@.len(),
            m == src@.len(),
            at + len <= n,
            start + len <= m,
            i <= len,
            forall|j: int|
                0 <= j < n ==> #[trigger] dst@[j] == if at <= j < at + i {
                    src@[start + j - at]
                } else {
                    old(dst)@[j]
                },
        decreases len - i,
    {
        dst.set(at + i, src[start + i]);
        i = i + 1;
    }
    proof {
        assert(dst@ =~= splice(old(dst)@, at as int, src@.subrange(start as int, start + len)));
    }
}

/// A decoded value has the length that was asked for.
proof fn lemma_decoded_len(codecs: CodecChain, encoded: Seq<u8>, size: int, element_size: int)
    requires
        codecs.decoded(encoded, size, element_size) is Some,
    ensures
        codecs.decoded(encoded, size, element_size)->Some_0.len() == size,
{
}

impl<TStorage: ReadableStorageTraits> Array<TStorage> {
    /// What the array's store holds.
    pub open spec fn values(&self) -> Map<Seq<char>, Seq<u8>> {
        self.spec_storage().values()
    }

    /// A decodable chunk has the size of a chunk.
    pub proof fn lemma_chunk_content_len(&self, values: Map<Seq<char>, Seq<u8>>, chunk: Seq<u64>)
        requires
            self.chunk_content(values, chunk) is Some,
            self.spec_fill_value().len() == self.element_size(),
        ensures
            self.chunk_content(values, chunk)->Some_0.len() == self.chunk_num_bytes(),
    {
        let key = self.chunk_key(chunk);
        if values.contains_key(key) {
            lemma_decoded_len(self.spec_codecs(), values[key], self.chunk_num_bytes(), self.element_size());
        } else {
            lemma_num_elements_nonneg(self.spec_chunk_shape());
            lemma_repeat_len(self.spec_fill_value(), num_elements(self.spec_chunk_shape()) as nat);
        }
    }

    /// The array's shape.
    pub fn shape(&self) -> (r: &Vec<u64>)
        ensures
            r@ == self.spec_shape(),
    {
        &self.shape
    }

    pub fn data_type(&self) -> (r: DataType)
        ensures
            r == self.spec_data_type(),
    {
        self.data_type
    }

    /// The fill value's element bytes.
    pub fn fill_value(&self) -> (r: &Vec<u8>)
        ensures
            r@ == self.spec_fill_value(),
    {
        &self.fill_value
    }

    pub fn path(&self) -> (r: &NodePath)
        ensures
            r@ == self.spec_path(),
    {
        &self.path
    }

    pub fn codecs(&self) -> (r: &CodecChain)
        ensures
            *r == self.spec_codecs(),
    {
        &self.codecs
    }

    pub fn chunk_grid(&self) -> (r: &RegularChunkGrid)
        ensures
            r.spec_chunk_shape() == self.spec_chunk_shape(),
    {
        &self.chunk_grid
    }

    pub fn chunk_key_encoding(&self) -> (r: ChunkKeyEncoding)
        ensures
            r == self.spec_chunk_key_encoding(),
    {
        self.chunk_key_encoding
    }

    pub fn storage(&self) -> (r: &TStorage)
        ensures
            r.values() == self.values(),
    {
        &self.storage
    }

    /// The array's store, given up.
    pub fn into_storage(self) -> (r: TStorage)
        ensures
            r.values() == self.values(),
    {
        self.storage
    }

    /// The size of a decoded chunk in bytes.
    fn chunk_size_bytes(&self) -> (r: usize)
        requires
            self.wf(),
        ensures
            r == self.chunk_num_bytes(),
    {
        let es = self.data_type.size();
        proof {
            lemma_num_elements_nonneg(self.spec_chunk_shape());
            let n = num_elements(self.spec_chunk_shape());
            assert(n <= n * (es as int)) by (nonlinear_arith)
                requires
                    n >= 0,
                    es >= 1,
            ;
        }
        let n = match crate::indices::checked_num_elements(self.chunk_grid.chunk_shape().as_slice()) {
            Some(n) => n,
            None => 0,
        };
        (n as usize) * es
    }

    /// The bytes of a chunk that holds only the fill value.
    fn fill_chunk_bytes(&self) -> (r: Vec<u8>)
        requires
            self.wf(),
        ensures
            r@ == self.fill_chunk(),
    {
        let es = self.data_type.size();
        proof {
            lemma_num_elements_nonneg(self.spec_chunk_shape());
            let n = num_elements(self.spec_chunk_shape());
            assert(n <= n * (es as int)) by (nonlinear_arith)
                requires
                    n >= 0,
                    es >= 1,
            ;
        }
        let n = match crate::indices::checked_num_elements(self.chunk_grid.chunk_shape().as_slice()) {
            Some(n) => n,
            None => 0,
        };
        repeat_pattern(self.fill_value.as_slice(), n as usize)
    }

    /// The store key of chunk `chunk_indices`.
    pub fn chunk_key_of(&self, chunk_indices: &[u64]) -> (r: crate::storage::StoreKey)
        requires
            self.wf(),
        ensures
            r@ == self.chunk_key(chunk_indices@),
    {
        data_key(&self.path, chunk_indices, &self.chunk_key_encoding)
    }

    /// Whether chunk `chunk_indices` lies in the chunk grid.
    pub fn is_chunk_in_grid(&self, chunk_indices: &[u64]) -> (r: bool)
        requires
            self.wf(),
        ensures
            r == self.chunk_in_grid(chunk_indices@),
    {
        match self.chunk_grid.chunk_shape_at(chunk_indices, self.shape.as_slice()) {
            Ok(Some(_)) => true,
            _ => false,
        }
    }

    /// The decoded bytes of chunk `chunk_indices`: its stored bytes decoded, or the fill
    /// value where it is not stored.
    pub fn retrieve_chunk(&self, chunk_indices: &[u64]) -> (r: Result<Vec<u8>, ArrayError>)
        requires
            self.wf(),
        ensures
            !self.chunk_in_grid(chunk_indices@) ==> (r matches Err(
                ArrayError::InvalidChunkGridIndicesError(v),
            ) && v@ == chunk_indices@),
            r matches Ok(v) ==> self.chunk_in_grid(chunk_indices@) && self.chunk_content(
                self.values(),
                chunk_indices@,
            ) == Some(v@),
            r matches Err(ArrayError::CodecError(_)) ==> self.chunk_in_grid(chunk_indices@)
                && self.chunk_content(self.values(), chunk_indices@) is None,
            self.chunk_in_grid(chunk_indices@) && self.chunk_content(self.values(), chunk_indices@)
                is None ==> r is Err,
            (r matches Err(ArrayError::InvalidChunkGridIndicesError(_))) ==> !self.chunk_in_grid(
                chunk_indices@,
            ),
            r is Err ==> (r matches Err(ArrayError::InvalidChunkGridIndicesError(_))) || (r matches Err(
                ArrayError::CodecError(_),
            )) || (r matches Err(ArrayError::StorageError(_))),
    {
        if !self.is_chunk_in_grid(chunk_indices) {
            return Err(ArrayError::InvalidChunkGridIndicesError(copy_indices(chunk_indices)));
        }
        let key = self.chunk_key_of(chunk_indices);
        let stored = match self.storage.get(&key) {
            Ok(v) => v,
            Err(e) => return Err(ArrayError::StorageError(e)),
        };
        match stored {
            None => Ok(self.fill_chunk_bytes()),
            Some(encoded) => {
                proof {
                    lemma_num_elements_nonneg(self.spec_chunk_shape());
                    vstd::arithmetic::div_mod::lemma_mod_multiples_basic(
                        num_elements(self.spec_chunk_shape()),
                        self.element_size(),
                    );
                }
                match self.codecs.decode(
                    encoded.as_slice(),
                    self.chunk_size_bytes() as u64,
                    self.data_type.size(),
                ) {
                    Ok(d) => Ok(d),
                    Err(e) => Err(ArrayError::CodecError(e)),
                }
            },
        }
    }
}

/// A copy of `v`.
fn copy_indices(v: &[u64]) -> (r: Vec<u64>)
    ensures
        r@ == v@,
{
    let mut r: Vec<u64> = Vec::new();
    let mut i: usize = 0;
    while i < v.len()
        invariant
            i <= v@.len(),
            r@ == v@.subrange(0, i as int),
        decreases v@.len() - i,
    {
        r.push(v[i]);
        proof {
            assert(r@ =~= v@.subrange(0, i + 1));
        }
        i = i + 1;
    }
    proof {
        assert(v@.subrange(0, v@.len() as int) =~= v@);
    }
    r
}

impl<TStorage> Array<TStorage> {
    /// Both arrays have one layout: everything but what the store holds.
    pub open spec fn same_layout(&self, other: &Self) -> bool {
        &&& self.spec_shape() == other.spec_shape()
        &&& self.spec_chunk_shape() == other.spec_chunk_shape()
        &&& self.spec_data_type() == other.spec_data_type()
        &&& self.spec_fill_value() == other.spec_fill_value()
        &&& self.spec_codecs() == other.spec_codecs()
        &&& self.spec_path() == other.spec_path()
        &&& self.spec_chunk_key_encoding() == other.spec_chunk_key_encoding()
        &&& self.spec_store_empty_chunks() == other.spec_store_empty_chunks()
        &&& self.parts_wf() == other.parts_wf()
        &&& self.same_descriptive_parts(other)
    }

    /// Both arrays have the same attributes, dimension names, additional fields and
    /// storage transformers.
    pub open spec fn same_descriptive_parts(&self, other: &Self) -> bool {
        &&& self.spec_attributes() == other.spec_attributes()
        &&& self.spec_dimension_names() == other.spec_dimension_names()
        &&& self.spec_additional_fields() == other.spec_additional_fields()
        &&& self.spec_storage_transformers() == other.spec_storage_transformers()
    }
}

impl<TStorage> Array<TStorage> {
    /// The store went from `before` to `after` by storing `bytes` as chunk `chunk`: the
    /// chunk now reads as `bytes`, no other key changed, and an all-fill chunk is not
    /// kept unless empty chunks are stored.
    pub open spec fn chunk_stored(
        &self,
        before: Map<Seq<char>, Seq<u8>>,
        after: Map<Seq<char>, Seq<u8>>,
        chunk: Seq<u64>,
        bytes: Seq<u8>,
    ) -> bool {
        let key = self.chunk_key(chunk);
        &&& self.chunk_content(after, chunk) == Some(bytes)
        &&& after.remove(key) == before.remove(key)
        &&& (!self.spec_store_empty_chunks() && bytes == self.fill_chunk()) ==> !after.contains_key(
            key,
        )
    }
}

impl<TStorage: ReadableStorageTraits + WritableStorageTraits> Array<TStorage> {
    /// Writes the array's metadata document, `document`, at the metadata key of its path.
    pub fn store_metadata_document(&mut self, document: &[u8]) -> (r: Result<(), StorageError>)
        requires
            old(self).wf(),
        ensures
            final(self).same_layout(old(self)),
            final(self).wf(),
            r is Ok ==> final(self).values() == old(self).values().insert(
                crate::storage::meta_key_of(old(self).spec_path()),
                document@,
            ),
            r is Err ==> final(self).values() == old(self).values(),
    {
        let key = crate::storage::meta_key(&self.path);
        let r = self.storage.set(&key, document);
        proof {
            lemma_same_layout(&*old(self), &*self);
        }
        r
    }

    /// Stores the decoded bytes of chunk `chunk_indices`. Where empty chunks are not kept
    /// and the bytes are all the fill value, the chunk's key is erased instead.
    pub fn store_chunk(&mut self, chunk_indices: &[u64], chunk_bytes: &[u8]) -> (r: Result<
        (),
        ArrayError,
    >)
        requires
            old(self).wf(),
        ensures
            final(self).same_layout(old(self)),
            final(self).wf(),
            !old(self).chunk_in_grid(chunk_indices@) ==> (r matches Err(
                ArrayError::InvalidChunkGridIndicesError(v),
            ) && v@ == chunk_indices@),
            old(self).chunk_in_grid(chunk_indices@) && chunk_bytes@.len()
                != old(self).chunk_num_bytes() ==> (r matches Err(
                ArrayError::InvalidBytesInputSize(got, expected),
            ) && got == chunk_bytes@.len() && expected == old(self).chunk_num_bytes()),
            r is Err ==> final(self).values() == old(self).values(),
            (r matches Err(ArrayError::InvalidChunkGridIndicesError(_))) ==> !old(self).chunk_in_grid(
                chunk_indices@,
            ),
            (r matches Err(ArrayError::CodecError(_))) <==> old(self).chunk_in_grid(chunk_indices@)
                && chunk_bytes@.len() == old(self).chunk_num_bytes() && !(
            !old(self).spec_store_empty_chunks() && chunk_bytes@ == old(self).fill_chunk())
                && old(self).spec_codecs().encoded(chunk_bytes@, old(self).element_size()) is None,
            r is Err ==> (r matches Err(ArrayError::InvalidChunkGridIndicesError(_))) || (r matches Err(
                ArrayError::InvalidBytesInputSize(_, _),
            )) || (r matches Err(ArrayError::CodecError(_))) || (r matches Err(
                ArrayError::StorageError(_),
            )),
            (r matches Err(ArrayError::InvalidBytesInputSize(_, _))) ==> chunk_bytes@.len()
                != old(self).chunk_num_bytes(),
            !(r matches Err(ArrayError::IncompatibleDimensionalityError(_))),
            !(r matches Err(ArrayError::InvalidArraySubset)),
            r is Ok ==> old(self).chunk_in_grid(chunk_indices@) && chunk_bytes@.len()
                == old(self).chunk_num_bytes() && old(self).chunk_stored(
                old(self).values(),
                final(self).values(),
                chunk_indices@,
                chunk_bytes@,
            ),
    {
        if !self.is_chunk_in_grid(chunk_indices) {
            return Err(ArrayError::InvalidChunkGridIndicesError(copy_indices(chunk_indices)));
        }
        let size = self.chunk_size_bytes();
        if chunk_bytes.len() != size {
            return Err(ArrayError::InvalidBytesInputSize(chunk_bytes.len(), size as u64));
        }
        let es = self.data_type.size();
        let key = self.chunk_key_of(chunk_indices);
        let ghost n = num_elements(self.spec_chunk_shape());
        proof {
            lemma_num_elements_nonneg(self.spec_chunk_shape());
            vstd::arithmetic::div_mod::lemma_mod_multiples_basic(n, es as int);
            assert((n * es) / (es as int) == n) by {
                vstd::arithmetic::div_mod::lemma_div_multiples_vanish(n, es as int);
                assert(n * es == (es as int) * n) by (nonlinear_arith);
            }
        }
        if !self.store_empty_chunks && is_repeat_of(chunk_bytes, self.fill_value.as_slice()) {
            match self.storage.erase(&key) {
                Ok(_) => {},
                Err(e) => return Err(ArrayError::StorageError(e)),
            }
            proof {
                lemma_same_layout(&*old(self), &*self);
                let key = old(self).chunk_key(chunk_indices@);
                assert(self.values() == old(self).values().remove(key));
                assert(!self.values().contains_key(key));
                assert(old(self).chunk_content(self.values(), chunk_indices@) == Some(old(self).fill_chunk()));
                assert(chunk_bytes@ == old(self).fill_chunk());
                assert(self.values().remove(key) =~= old(self).values().remove(key));
            }
            return Ok(());
        }
        proof {
            if !self.store_empty_chunks && chunk_bytes@ == self.fill_chunk() {
                lemma_repeat_len(self.spec_fill_value(), n as nat);
                assert(false);
            }
        }
        let encoded = match self.codecs.encode(chunk_bytes, es) {
            Ok(e) => e,
            Err(e) => return Err(ArrayError::CodecError(e)),
        };
        match self.storage.set(&key, encoded.as_slice()) {
            Ok(()) => {},
            Err(e) => return Err(ArrayError::StorageError(e)),
        }
        proof {
            assert(self.values()[key@] == encoded@);
            lemma_same_layout(&*old(self), &*self);
            assert(self.values().remove(key@) =~= old(self).values().remove(key@));
            assert(old(self).chunk_content(self.values(), chunk_indices@) == Some(chunk_bytes@));
        }
        Ok(())
    }

    /// Erases chunk `chunk_indices`; it then reads as the fill value. Says whether it was
    /// stored.
    pub fn erase_chunk(&mut self, chunk_indices: &[u64]) -> (r: Result<bool, ArrayError>)
        requires
            old(self).wf(),
        ensures
            final(self).same_layout(old(self)),
            final(self).wf(),
            !old(self).chunk_in_grid(chunk_indices@) ==> (r matches Err(
                ArrayError::InvalidChunkGridIndicesError(v),
            ) && v@ == chunk_indices@),
            r is Err ==> final(self).values() == old(self).values(),
            r matches Ok(existed) ==> existed == old(self).values().contains_key(
                old(self).chunk_key(chunk_indices@),
            ) && final(self).values() == old(self).values().remove(
                old(self).chunk_key(chunk_indices@),
            ),
    {
        if !self.is_chunk_in_grid(chunk_indices) {
            return Err(ArrayError::InvalidChunkGridIndicesError(copy_indices(chunk_indices)));
        }
        let key = self.chunk_key_of(chunk_indices);
        match self.storage.erase(&key) {
            Ok(existed) => Ok(existed),
            Err(e) => Err(ArrayError::StorageError(e)),
        }
    }
}

/// `j * es + es <= k * es` for `j < k`, and `k * es + es == (k + 1) * es`.
proof fn lemma_element_step(j: int, k: int, es: int)
    requires
        0 <= j < k,
        es >= 0,
    ensures
        0 <= j * es,
        j * es + es <= k * es,
{
    assert(0 <= j * es) by (nonlinear_arith)
        requires
            0 <= j,
            es >= 0,
    ;
    assert(j * es + es <= k * es) by (nonlinear_arith)
        requires
            j < k,
            es >= 0,
    ;
}

/// The element ranges of two distinct positions do not overlap, and each lies inside a
/// run of `n` elements.
proof fn lemma_element_ranges(a: int, b: int, n: int, es: int)
    requires
        0 <= a < n,
        0 <= b < n,
        es >= 0,
    ensures
        0 <= a * es,
        a * es + es <= n * es,
        a != b ==> (a * es + es <= b * es || b * es + es <= a * es),
{
    lemma_element_step(a, n, es);
    if a < b {
        lemma_element_step(a, b, es);
    }
    if b < a {
        lemma_element_step(b, a, es);
    }
}

impl<TStorage: ReadableStorageTraits> Array<TStorage> {
    /// The bytes of chunk `chunk`, where `held` holds a chunk not yet written.
    pub open spec fn held_content(
        &self,
        values: Map<Seq<char>, Seq<u8>>,
        held: Option<(Seq<u64>, Seq<u8>)>,
        chunk: Seq<u64>,
    ) -> Option<Seq<u8>> {
        match held {
            Some((c, b)) => if c == chunk {
                Some(b)
            } else {
                self.chunk_content(values, chunk)
            },
            None => self.chunk_content(values, chunk),
        }
    }

    /// The element at `indices` once the first `k` elements of `subset` have been written
    /// from `bytes` over a store holding `before`.
    pub open spec fn written_element(
        &self,
        before: Map<Seq<char>, Seq<u8>>,
        subset: ArraySubset,
        bytes: Seq<u8>,
        indices: Seq<u64>,
        k: int,
    ) -> Option<Seq<u8>> {
        if subset.spec_contains(indices) && subset.position_of(indices) < k {
            Some(self.nth_element(bytes, subset.position_of(indices)))
        } else {
            self.element(before, indices)
        }
    }

    /// Writing a held chunk leaves every chunk as it read while held.
    proof fn lemma_write_held(
        &self,
        before: Map<Seq<char>, Seq<u8>>,
        after: Map<Seq<char>, Seq<u8>>,
        c: Seq<u64>,
        b: Seq<u8>,
    )
        requires
            c.len() == self.spec_shape().len(),
            self.chunk_content(after, c) == Some(b),
            after.remove(self.chunk_key(c)) == before.remove(self.chunk_key(c)),
        ensures
            forall|chunk: Seq<u64>|
                chunk.len() == self.spec_shape().len() ==> #[trigger] self.held_content(
                    after,
                    None,
                    chunk,
                ) == self.held_content(before, Some((c, b)), chunk),
    {
        assert forall|chunk: Seq<u64>| chunk.len() == self.spec_shape().len() implies #[trigger] self.held_content(
            after,
            None,
            chunk,
        ) == self.held_content(before, Some((c, b)), chunk) by {
            if chunk != c {
                let kc = self.chunk_key(chunk);
                let kk = self.chunk_key(c);
                if kc == kk {
                    lemma_chunk_key_injective(
                        self.spec_path(),
                        self.spec_chunk_key_encoding(),
                        chunk,
                        c,
                    );
                }
                assert(after.remove(kk).contains_key(kc) == after.contains_key(kc));
                assert(before.remove(kk).contains_key(kc) == before.contains_key(kc));
                if after.contains_key(kc) {
                    assert(after.remove(kk)[kc] == after[kc]);
                    assert(before.remove(kk)[kc] == before[kc]);
                }
            }
        }
    }

    /// Two elements with one chunk and one position in it are the same element.
    proof fn lemma_same_place(&self, a: Seq<u64>, b: Seq<u64>)
        requires
            self.wf(),
            a.len() == self.spec_shape().len(),
            b.len() == self.spec_shape().len(),
            chunk_of(a, self.spec_chunk_shape()) == chunk_of(b, self.spec_chunk_shape()),
            self.offset_in_chunk(a) == self.offset_in_chunk(b),
        ensures
            a == b,
    {
        let cs = self.spec_chunk_shape();
        lemma_chunk_decompose(a, cs);
        lemma_chunk_decompose(b, cs);
        lemma_ravel_unravel(within_chunk(a, cs), cs);
        lemma_ravel_unravel(within_chunk(b, cs), cs);
    }

    /// An element's position in its chunk lies inside the chunk.
    proof fn lemma_offset_bounds(&self, a: Seq<u64>)
        requires
            self.wf(),
            a.len() == self.spec_shape().len(),
        ensures
            0 <= self.offset_in_chunk(a) < num_elements(self.spec_chunk_shape()),
    {
        lemma_chunk_decompose(a, self.spec_chunk_shape());
        lemma_ravel_unravel(within_chunk(a, self.spec_chunk_shape()), self.spec_chunk_shape());
    }

    /// The size in bytes of the elements of `subset`, or `None` where it does not fit in a
    /// `usize`.
    fn subset_byte_count(&self, subset: &ArraySubset) -> (r: Option<usize>)
        requires
            self.wf(),
        ensures
            r is Some <==> subset.spec_num_elements() * self.element_size() <= usize::MAX,
            r matches Some(b) ==> b == subset.spec_num_elements() * self.element_size(),
    {
        let es = self.data_type.size();
        proof {
            lemma_num_elements_nonneg(subset.spec_shape());
        }
        let n = match subset.num_elements() {
            Some(n) => n,
            None => {
                proof {
                    let m = subset.spec_num_elements();
                    assert(m * es > usize::MAX) by (nonlinear_arith)
                        requires
                            m > u64::MAX,
                            es >= 1,
                            usize::MAX <= u64::MAX,
                    ;
                }
                return None;
            },
        };
        if n > (usize::MAX / es) as u64 {
            proof {
                assert(n * es > usize::MAX) by (nonlinear_arith)
                    requires
                        n > usize::MAX / es,
                        es >= 1,
                ;
            }
            return None;
        }
        proof {
            assert(n * es <= usize::MAX) by (nonlinear_arith)
                requires
                    n <= usize::MAX / es,
                    es >= 1,
            ;
            assert(n <= n * es) by (nonlinear_arith)
                requires
                    n >= 0,
                    es >= 1,
            ;
        }
        Some((n as usize) * es)
    }

    /// Whether `subset` has the array's rank and lies inside it.
    fn check_subset(&self, subset: &ArraySubset) -> (r: Result<(), ArrayError>)
        requires
            self.wf(),
            subset.wf(),
        ensures
            r is Ok <==> self.subset_inside(*subset),
            subset.spec_start().len() != self.spec_shape().len() ==> r matches Err(
                ArrayError::IncompatibleDimensionalityError(_),
            ),
            subset.spec_start().len() == self.spec_shape().len() && !self.subset_inside(*subset)
                ==> r matches Err(ArrayError::InvalidArraySubset),
    {
        let n = self.shape.len();
        if subset.dimensionality() != n {
            return Err(
                ArrayError::IncompatibleDimensionalityError(
                    IncompatibleDimensionalityError { got: subset.dimensionality(), expected: n },
                ),
            );
        }
        let start = subset.start();
        let extent = subset.shape();
        let mut d: usize = 0;
        while d < n
            invariant
                subset.wf(),
                n == self.spec_shape().len(),
                start@ == subset.spec_start(),
                extent@ == subset.spec_shape(),
                start@.len() == n,
                d <= n,
                forall|e: int|
                    0 <= e < d ==> #[trigger] subset.spec_start()[e] + subset.spec_shape()[e]
                        <= self.spec_shape()[e],
            decreases n - d,
        {
            if start[d] + extent[d] > self.shape[d] {
                return Err(ArrayError::InvalidArraySubset);
            }
            d = d + 1;
        }
        Ok(())
    }

    /// The chunk holding element `k` of `subset`, and the element's position in it.
    fn locate(&self, subset: &ArraySubset, k: u64) -> (r: (Vec<u64>, usize))
        requires
            self.wf(),
            subset.wf(),
            self.subset_inside(*subset),
            k < subset.spec_num_elements(),
        ensures
            in_bounds(subset.element_indices(k as int), self.spec_shape()),
            r.0@ == chunk_of(subset.element_indices(k as int), self.spec_chunk_shape()),
            self.chunk_in_grid(r.0@),
            r.1 == self.offset_in_chunk(subset.element_indices(k as int)),
            r.1 < num_elements(self.spec_chunk_shape()),
    {
        let extent = subset.shape();
        proof {
            assert(all_positive(extent@)) by {
                if !all_positive(extent@) {
                    let d = choose|d: int| 0 <= d < extent@.len() && !(extent@[d] > 0);
                    lemma_num_elements_zero(extent@, d);
                }
            }
            lemma_unravel_ravel(k as int, extent@);
        }
        let u = unravel_index(k, extent.as_slice());
        let start = subset.start();
        let cs = self.chunk_grid.chunk_shape();
        let ghost idx = subset.element_indices(k as int);
        let n = start.len();
        let mut c: Vec<u64> = Vec::new();
        let mut w: Vec<u64> = Vec::new();
        let mut d: usize = 0;
        while d < n
            invariant
                self.wf(),
                subset.wf(),
                self.subset_inside(*subset),
                n == start@.len(),
                n == self.spec_shape().len(),
                start@ == subset.spec_start(),
                extent@ == subset.spec_shape(),
                cs@ == self.spec_chunk_shape(),
                u@ == unravel(k as int, extent@),
                in_bounds(u@, extent@),
                idx == subset.element_indices(k as int),
                d <= n,
                c@ =~= chunk_of(idx, cs@).subrange(0, d as int),
                w@ =~= within_chunk(idx, cs@).subrange(0, d as int),
            decreases n - d,
        {
            assert(u@[d as int] < extent@[d as int]);
            assert(start@[d as int] + extent@[d as int] <= u64::MAX);
            let x = start[d] + u[d];
            assert(cs@[d as int] > 0);
            c.push(x / cs[d]);
            w.push(x % cs[d]);
            d = d + 1;
        }
        proof {
            assert(c@ =~= chunk_of(idx, cs@));
            assert(w@ =~= within_chunk(idx, cs@));
            assert(in_bounds(idx, self.spec_shape())) by {
                assert forall|e: int| 0 <= e < n implies #[trigger] idx[e] < self.spec_shape()[e] by {
                    assert(u@[e] < extent@[e]);
                    assert(subset.spec_start()[e] + subset.spec_shape()[e] <= self.spec_shape()[e]);
                }
            }
            lemma_chunk_decompose(idx, cs@);
            lemma_chunk_in_grid(idx, self.spec_shape(), cs@);
            lemma_ravel_unravel(w@, cs@);
            lemma_num_elements_nonneg(cs@);
            let m = num_elements(cs@);
            let es = self.element_size();
            assert(m <= m * es) by (nonlinear_arith)
                requires
                    m >= 0,
                    es >= 1,
            ;
        }
        let o = ravel_indices(w.as_slice(), cs.as_slice());
        (c, o as usize)
    }

    /// The bytes of the elements of `subset`, in row-major order; each chunk the subset
    /// touches is decoded once (a chunk that is not stored reads as the fill value).
    pub fn retrieve_array_subset(&self, subset: &ArraySubset) -> (r: Result<Vec<u8>, ArrayError>)
        requires
            self.wf(),
            subset.wf(),
        ensures
            subset.spec_start().len() != self.spec_shape().len() ==> r matches Err(
                ArrayError::IncompatibleDimensionalityError(_),
            ),
            subset.spec_start().len() == self.spec_shape().len() && !self.subset_inside(*subset)
                ==> r matches Err(ArrayError::InvalidArraySubset),
            r matches Ok(out) ==> self.subset_inside(*subset) && out@.len()
                == subset.spec_num_elements() * self.element_size() && (forall|k: int|
                0 <= k < subset.spec_num_elements() ==> self.element(
                    self.values(),
                    subset.element_indices(k),
                ) == Some(#[trigger] self.nth_element(out@, k))),
            r matches Err(ArrayError::CodecError(_)) ==> exists|k: int|
                0 <= k < subset.spec_num_elements() && #[trigger] self.element(
                    self.values(),
                    subset.element_indices(k),
                ) is None,
            (r matches Err(ArrayError::TooLarge)) <==> self.subset_inside(*subset)
                && subset.spec_num_elements() * self.element_size() > usize::MAX,
            self.subset_inside(*subset) && subset.spec_num_elements() == 0 ==> (r matches Ok(out)
                && out@.len() == 0),
            r is Err ==> (r matches Err(ArrayError::IncompatibleDimensionalityError(_))) || (r matches Err(
                ArrayError::InvalidArraySubset,
            )) || (r matches Err(ArrayError::TooLarge)) || (r matches Err(ArrayError::CodecError(_)))
                || (r matches Err(ArrayError::StorageError(_))),
    {
        match self.check_subset(subset) {
            Ok(()) => {},
            Err(e) => return Err(e),
        }
        if self.subset_byte_count(subset).is_none() {
            return Err(ArrayError::TooLarge);
        }
        proof {
            let m = subset.spec_num_elements();
            let e = self.element_size();
            lemma_num_elements_nonneg(subset.spec_shape());
            assert(m <= m * e) by (nonlinear_arith)
                requires
                    m >= 0,
                    e >= 1,
            ;
        }
        let n = match subset.num_elements() {
            Some(n) => n,
            None => return Err(ArrayError::TooLarge),
        };
        let es = self.data_type.size();
        proof {
            assert(n * es <= usize::MAX);
        }
        let mut out: Vec<u8> = Vec::new();
        let mut chunks: Vec<Vec<u64>> = Vec::new();
        let mut buffers: Vec<Vec<u8>> = Vec::new();
        let mut k: u64 = 0;
        while k < n
            invariant
                self.wf(),
                subset.wf(),
                self.subset_inside(*subset),
                n == subset.spec_num_elements(),
                es == self.element_size(),
                n * es <= usize::MAX,
                k <= n,
                out@.len() == k * es,
                forall|j: int|
                    0 <= j < k ==> self.element(self.values(), subset.element_indices(j)) == Some(
                        #[trigger] self.nth_element(out@, j),
                    ),
                chunks@.len() == buffers@.len(),
                forall|j: int|
                    0 <= j < chunks@.len() ==> self.chunk_content(
                        self.values(),
                        (#[trigger] chunks@[j])@,
                    ) == Some(buffers@[j]@) && buffers@[j]@.len() == self.chunk_num_bytes(),
            decreases n - k,
        {
            let (c, o) = self.locate(subset, k);
            let i = match find_cached(&chunks, &c) {
                Some(i) => i,
                None => {
                    let content = match self.retrieve_chunk(c.as_slice()) {
                        Ok(v) => v,
                        Err(e) => {
                            proof {
                                if e is CodecError {
                                    assert(self.element(
                                        self.values(),
                                        subset.element_indices(k as int),
                                    ) is None);
                                }
                            }
                            return Err(e);
                        },
                    };
                    proof {
                        self.lemma_chunk_content_len(self.values(), c@);
                    }
                    let ghost pre_chunks = chunks@;
                    let ghost pre_buffers = buffers@;
                    chunks.push(c);
                    buffers.push(content);
                    proof {
                        assert forall|j: int| 0 <= j < chunks@.len() implies self.chunk_content(
                            self.values(),
                            (#[trigger] chunks@[j])@,
                        ) == Some(buffers@[j]@) && buffers@[j]@.len() == self.chunk_num_bytes() by {
                            if j < pre_chunks.len() {
                                assert(pre_chunks[j] == chunks@[j]);
                                assert(pre_buffers[j] == buffers@[j]);
                            }
                        }
                        assert(chunks@.drop_last() =~= pre_chunks);
                    }
                    chunks.len() - 1
                },
            };
            proof {
                lemma_find_chunk_bounds(chunks@, c@);
                lemma_element_ranges(
                    o as int,
                    o as int,
                    num_elements(self.spec_chunk_shape()),
                    es as int,
                );
            }
            let ghost before = out@;
            let ghost idx = subset.element_indices(k as int);
            append_range(&mut out, buffers[i].as_slice(), o * es, o * es + es);
            proof {
                let content = buffers@[i as int]@;
                assert(chunks@[i as int]@ == c@);
                assert(self.chunk_content(self.values(), chunk_of(idx, self.spec_chunk_shape()))
                    == Some(content));
                assert(self.nth_element(out@, k as int) =~= content.subrange(
                    o * es,
                    o * es + es,
                ));
                assert forall|j: int| 0 <= j < k + 1 implies self.element(
                    self.values(),
                    subset.element_indices(j),
                ) == Some(#[trigger] self.nth_element(out@, j)) by {
                    if j < k {
                        lemma_element_step(j, k as int, es as int);
                        assert(self.nth_element(out@, j) =~= self.nth_element(before, j));
                    }
                }
                assert(out@.len() == (k + 1) * es) by (nonlinear_arith)
                    requires
                        out@.len() == k * es + es,
                ;
            }
            k = k + 1;
        }
        Ok(out)
    }
}

impl<TStorage: ReadableStorageTraits> Array<TStorage> {
    /// The store went from `before` to `after` by writing `bytes` to the elements of
    /// `subset`: each element of the array inside `subset` holds its bytes, each other
    /// element is as it was.
    pub open spec fn subset_stored(
        &self,
        before: Map<Seq<char>, Seq<u8>>,
        after: Map<Seq<char>, Seq<u8>>,
        subset: ArraySubset,
        bytes: Seq<u8>,
    ) -> bool {
        forall|indices: Seq<u64>|
            in_bounds(indices, self.spec_shape()) ==> #[trigger] self.element(after, indices) == (
            if subset.spec_contains(indices) {
                Some(self.nth_element(bytes, subset.position_of(indices)))
            } else {
                self.element(before, indices)
            })
    }
}

impl<TStorage: ReadableStorageTraits> Array<TStorage> {
    /// The store went from `before` to `after` by writing some of the chunks that a write
    /// of `bytes` to `subset` touches, each whole: every chunk reads as it did, or every
    /// element of the array in it holds what that write gives it.
    pub open spec fn subset_partly_stored(
        &self,
        before: Map<Seq<char>, Seq<u8>>,
        after: Map<Seq<char>, Seq<u8>>,
        subset: ArraySubset,
        bytes: Seq<u8>,
    ) -> bool {
        forall|chunk: Seq<u64>|
            chunk.len() == self.spec_shape().len() ==> #[trigger] self.chunk_content(after, chunk)
                == self.chunk_content(before, chunk) || forall|idx: Seq<u64>|
                in_bounds(idx, self.spec_shape()) && chunk_of(idx, self.spec_chunk_shape()) == chunk
                    ==> #[trigger] self.element(after, idx) == self.written_element(
                    before,
                    subset,
                    bytes,
                    idx,
                    subset.spec_num_elements(),
                )
    }
}

impl<TStorage: ReadableStorageTraits + WritableStorageTraits> Array<TStorage> {
    /// Writes `subset_bytes`, the row-major bytes of the elements of `subset`, into the
    /// array. Each chunk the subset touches is updated in memory and written back once; a
    /// chunk the subset covers starts from the fill value, any other is read first (or
    /// taken as the fill value where it is not stored).
    pub fn store_array_subset(&mut self, subset: &ArraySubset, subset_bytes: &[u8]) -> (r: Result<
        (),
        ArrayError,
    >)
        requires
            old(self).wf(),
            subset.wf(),
        ensures
            final(self).same_layout(old(self)),
            final(self).wf(),
            subset.spec_start().len() != old(self).spec_shape().len() ==> r matches Err(
                ArrayError::IncompatibleDimensionalityError(_),
            ),
            subset.spec_start().len() == old(self).spec_shape().len() && !old(self).subset_inside(
                *subset,
            ) ==> r matches Err(ArrayError::InvalidArraySubset),
            old(self).subset_inside(*subset) && subset_bytes@.len() != subset.spec_num_elements()
                * old(self).element_size() ==> r is Err,
            (r matches Err(ArrayError::TooLarge)) <==> old(self).subset_inside(*subset)
                && subset.spec_num_elements() * old(self).element_size() > usize::MAX,
            old(self).subset_inside(*subset) && subset.spec_num_elements() * old(self).element_size()
                <= usize::MAX && subset_bytes@.len() != subset.spec_num_elements()
                * old(self).element_size() ==> (r matches Err(
                ArrayError::InvalidBytesInputSize(got, expected),
            ) && got == subset_bytes@.len() && expected == subset.spec_num_elements()
                * old(self).element_size()),
            (r matches Err(ArrayError::IncompatibleDimensionalityError(_))) || (r matches Err(
                ArrayError::InvalidArraySubset,
            )) || (r matches Err(ArrayError::InvalidBytesInputSize(_, _))) || (r matches Err(
                ArrayError::TooLarge,
            )) ==> final(self).values() == old(self).values(),
            (r matches Err(ArrayError::CodecError(_))) ==> (exists|idx: Seq<u64>|
                in_bounds(idx, old(self).spec_shape()) && subset.spec_contains(idx)
                    && #[trigger] old(self).element(old(self).values(), idx) is None) || (exists|
                b: Seq<u8>,
            |
                b.len() == old(self).chunk_num_bytes() && #[trigger] old(
                    self,
                ).spec_codecs().encoded(b, old(self).element_size()) is None),
            r is Err ==> old(self).subset_partly_stored(
                old(self).values(),
                final(self).values(),
                *subset,
                subset_bytes@,
            ),
            r is Err ==> (r matches Err(ArrayError::IncompatibleDimensionalityError(_))) || (r matches Err(
                ArrayError::InvalidArraySubset,
            )) || (r matches Err(ArrayError::TooLarge)) || (r matches Err(
                ArrayError::InvalidBytesInputSize(_, _),
            )) || (r matches Err(ArrayError::CodecError(_))) || (r matches Err(
                ArrayError::StorageError(_),
            )),
            r is Ok ==> old(self).subset_inside(*subset) && subset_bytes@.len()
                == subset.spec_num_elements() * old(self).element_size() && old(self).subset_stored(
                old(self).values(),
                final(self).values(),
                *subset,
                subset_bytes@,
            ),
    {
        proof {
            assert(old(self).subset_partly_stored(
                old(self).values(),
                old(self).values(),
                *subset,
                subset_bytes@,
            ));
        }
        match self.check_subset(subset) {
            Ok(()) => {},
            Err(e) => return Err(e),
        }
        let total = match self.subset_byte_count(subset) {
            Some(t) => t,
            None => return Err(ArrayError::TooLarge),
        };
        proof {
            let m = subset.spec_num_elements();
            let e = self.element_size();
            lemma_num_elements_nonneg(subset.spec_shape());
            assert(m <= m * e) by (nonlinear_arith)
                requires
                    m >= 0,
                    e >= 1,
            ;
        }
        let n = match subset.num_elements() {
            Some(n) => n,
            None => return Err(ArrayError::TooLarge),
        };
        let es = self.data_type.size();
        proof {
            assert(n * es <= usize::MAX);
            assert(n <= n * es) by (nonlinear_arith)
                requires
                    n >= 0,
                    es >= 1,
            ;
        }
        if subset_bytes.len() != total {
            return Err(ArrayError::InvalidBytesInputSize(subset_bytes.len(), total as u64));
        }
        let ghost before = self.values();
        let ghost cs = self.spec_chunk_shape();
        let ghost rank = self.spec_shape().len();
        let mut chunks: Vec<Vec<u64>> = Vec::new();
        let mut buffers: Vec<Vec<u8>> = Vec::new();
        proof {
            assert forall|idx: Seq<u64>| in_bounds(idx, self.spec_shape()) implies #[trigger] self.cached_element(
                before,
                chunks@,
                buffers@,
                idx,
            ) == self.written_element(before, *subset, subset_bytes@, idx, 0) by {
                if subset.spec_contains(idx) {
                    lemma_element_of_position(*subset, idx);
                }
            }
            assert forall|idx: Seq<u64>|
                in_bounds(idx, self.spec_shape()) && subset.spec_contains(idx) && #[trigger] subset.position_of(idx) < 0
                    implies find_chunk(chunks@, chunk_of(idx, cs)) >= 0 by {
                lemma_element_of_position(*subset, idx);
            }
        }
        let mut k: u64 = 0;
        while k < n
            invariant
                *self == *old(self),
                self.wf(),
                self.same_layout(old(self)),
                self.values() == before,
                before == old(self).values(),
                subset.wf(),
                self.subset_inside(*subset),
                n == subset.spec_num_elements(),
                n <= usize::MAX,
                es == self.element_size(),
                n * es <= usize::MAX,
                subset_bytes@.len() == n * es,
                cs == self.spec_chunk_shape(),
                rank == self.spec_shape().len(),
                k <= n,
                self.cache_wf(chunks@, buffers@),
                forall|idx: Seq<u64>|
                    in_bounds(idx, self.spec_shape()) ==> (subset.spec_contains(idx)
                        && subset.position_of(idx) >= k) || #[trigger] self.cached_element(
                        before,
                        chunks@,
                        buffers@,
                        idx,
                    ) == self.written_element(before, *subset, subset_bytes@, idx, k as int),
                forall|idx: Seq<u64>|
                    in_bounds(idx, self.spec_shape()) && subset.spec_contains(idx)
                        && #[trigger] subset.position_of(idx) < k ==> find_chunk(
                        chunks@,
                        chunk_of(idx, cs),
                    ) >= 0,
            decreases n - k,
        {
            let (c, o) = self.locate(subset, k);
            let ghost idx_k = subset.element_indices(k as int);
            let i = match find_cached(&chunks, &c) {
                Some(i) => i,
                None => {
                    let covered = self.chunk_covered(c.as_slice(), subset);
                    let content = if covered {
                        let fill = self.fill_chunk_bytes();
                        proof {
                            lemma_num_elements_nonneg(cs);
                            lemma_repeat_len(self.spec_fill_value(), num_elements(cs) as nat);
                        }
                        fill
                    } else {
                        let v = match self.retrieve_chunk(c.as_slice()) {
                            Ok(v) => v,
                            Err(e) => {
                                proof {
                                    lemma_position_of_element(*subset, k as int);
                                    if e is CodecError {
                                        assert(old(self).element(old(self).values(), idx_k)
                                            is None);
                                    }
                                }
                                return Err(e);
                            },
                        };
                        proof {
                            self.lemma_chunk_content_len(self.values(), c@);
                        }
                        v
                    };
                    let ghost pre_chunks = chunks@;
                    let ghost pre_buffers = buffers@;
                    proof {
                        lemma_find_chunk_bounds(pre_chunks, c@);
                    }
                    chunks.push(c);
                    buffers.push(content);
                    proof {
                        assert(chunks@.drop_last() =~= pre_chunks);
                        assert forall|x: Seq<u64>| #[trigger] find_chunk(chunks@, x) == if x
                            == chunks@.last()@ {
                            pre_chunks.len() as int
                        } else {
                            find_chunk(pre_chunks, x)
                        } by {}
                        assert(self.cache_wf(chunks@, buffers@)) by {
                            assert forall|a: int, b: int|
                                0 <= a < b < chunks@.len() implies #[trigger] chunks@[a]@
                                != #[trigger] chunks@[b]@ by {
                                if b == pre_chunks.len() {
                                    assert(pre_chunks[a] == chunks@[a]);
                                } else {
                                    assert(pre_chunks[a] == chunks@[a]);
                                    assert(pre_chunks[b] == chunks@[b]);
                                }
                            }
                            assert forall|j: int| 0 <= j < chunks@.len() implies (#[trigger] chunks@[j])@.len()
                                == rank && self.chunk_in_grid(chunks@[j]@) && buffers@[j]@.len()
                                == self.chunk_num_bytes() by {
                                if j < pre_chunks.len() {
                                    assert(pre_chunks[j] == chunks@[j]);
                                    assert(pre_buffers[j] == buffers@[j]);
                                }
                            }
                        }
                        assert forall|idx: Seq<u64>| in_bounds(idx, self.spec_shape()) implies (
                        subset.spec_contains(idx) && subset.position_of(idx) >= k)
                            || #[trigger] self.cached_element(
                            before,
                            chunks@,
                            buffers@,
                            idx,
                        ) == self.written_element(before, *subset, subset_bytes@, idx, k as int) by {
                            let x = chunk_of(idx, cs);
                            lemma_find_chunk_bounds(pre_chunks, x);
                            if x == c@ {
                                if subset.spec_contains(idx) && subset.position_of(idx) < k {
                                    assert(find_chunk(pre_chunks, x) >= 0);
                                }
                                if !covered {
                                    assert(self.cached_element(before, pre_chunks, pre_buffers, idx)
                                        == self.cached_element(before, chunks@, buffers@, idx));
                                }
                            } else {
                                assert(self.cached_element(before, pre_chunks, pre_buffers, idx)
                                    == self.cached_element(before, chunks@, buffers@, idx)) by {
                                    if find_chunk(pre_chunks, x) >= 0 {
                                        assert(pre_buffers[find_chunk(pre_chunks, x)]
                                            == buffers@[find_chunk(pre_chunks, x)]);
                                    }
                                }
                            }
                        }
                        assert forall|idx: Seq<u64>|
                            in_bounds(idx, self.spec_shape()) && subset.spec_contains(idx)
                                && #[trigger] subset.position_of(idx) < k implies find_chunk(
                                chunks@,
                                chunk_of(idx, cs),
                            ) >= 0 by {
                            lemma_find_chunk_bounds(pre_chunks, chunk_of(idx, cs));
                        }
                    }
                    chunks.len() - 1
                },
            };
            proof {
                lemma_find_chunk_bounds(chunks@, c@);
            }
            let ghost pre_buffers = buffers@;
            let ghost pre_bytes = buffers@[i as int]@;
            proof {
                lemma_element_ranges(o as int, o as int, num_elements(cs), es as int);
                lemma_element_ranges(k as int, k as int, n as int, es as int);
            }
            write_range(&mut buffers[i], o * es, subset_bytes, (k as usize) * es, es);
            proof {
                let value = self.nth_element(subset_bytes@, k as int);
                assert(buffers@[i as int]@ == splice(pre_bytes, o * es, value));
                lemma_position_of_element(*subset, k as int);
                assert(self.cache_wf(chunks@, buffers@)) by {
                    assert forall|j: int| 0 <= j < chunks@.len() implies (#[trigger] chunks@[j])@.len()
                        == rank && self.chunk_in_grid(chunks@[j]@) && buffers@[j]@.len()
                        == self.chunk_num_bytes() by {
                        if j != i {
                            assert(pre_buffers[j] == buffers@[j]);
                        } else {
                            assert(pre_buffers[j]@ == pre_bytes);
                            assert(pre_bytes.len() == self.chunk_num_bytes());
                            assert(value.len() == es);
                            assert(o * es + es <= pre_bytes.len());
                            assert(splice(pre_bytes, o * es, value).len() == pre_bytes.len());
                            assert(buffers@[j]@.len() == self.chunk_num_bytes());
                            assert(chunks@[j]@.len() == rank);
                            assert(self.chunk_in_grid(chunks@[j]@));
                        }
                    }
                }
                assert forall|idx: Seq<u64>| in_bounds(idx, self.spec_shape()) implies (
                subset.spec_contains(idx) && subset.position_of(idx) >= k + 1)
                    || #[trigger] self.cached_element(
                    before,
                    chunks@,
                    buffers@,
                    idx,
                ) == self.written_element(before, *subset, subset_bytes@, idx, k + 1) by {
                    let ci = chunk_of(idx, cs);
                    lemma_find_chunk_bounds(chunks@, ci);
                    if subset.spec_contains(idx) {
                        lemma_element_of_position(*subset, idx);
                    }
                    if ci == c@ {
                        self.lemma_offset_bounds(idx);
                        let oi = self.offset_in_chunk(idx);
                        lemma_element_ranges(oi, o as int, num_elements(cs), es as int);
                        if oi == o {
                            self.lemma_same_place(idx, idx_k);
                            assert(self.element_of(buffers@[i as int]@, idx) =~= value);
                        } else {
                            assert((subset.spec_contains(idx) && subset.position_of(idx) >= k) || self.cached_element(before, chunks@, pre_buffers, idx)
                                == self.written_element(before, *subset, subset_bytes@, idx, k as int));
                            if subset.spec_contains(idx) && subset.position_of(idx) == k {
                                assert(idx == idx_k);
                            }
                            assert(self.element_of(buffers@[i as int]@, idx) =~= self.element_of(
                                pre_bytes,
                                idx,
                            ));
                        }
                    } else {
                        assert((subset.spec_contains(idx) && subset.position_of(idx) >= k) || self.cached_element(before, chunks@, pre_buffers, idx)
                            == self.written_element(before, *subset, subset_bytes@, idx, k as int));
                        if find_chunk(chunks@, ci) >= 0 {
                            assert(find_chunk(chunks@, ci) != i);
                            assert(pre_buffers[find_chunk(chunks@, ci)] == buffers@[find_chunk(
                                chunks@,
                                ci,
                            )]);
                        }
                        if subset.spec_contains(idx) && subset.position_of(idx) == k {
                            assert(idx == idx_k);
                        }
                    }
                }
                assert forall|idx: Seq<u64>|
                    in_bounds(idx, self.spec_shape()) && subset.spec_contains(idx)
                        && #[trigger] subset.position_of(idx) < k + 1 implies find_chunk(
                        chunks@,
                        chunk_of(idx, cs),
                    ) >= 0 by {
                    if subset.position_of(idx) == k {
                        lemma_element_of_position(*subset, idx);
                        assert(idx == idx_k);
                    }
                }
            }
            k = k + 1;
        }
        proof {
            assert forall|idx: Seq<u64>| in_bounds(idx, self.spec_shape()) implies #[trigger] self.cached_element(
                before,
                chunks@,
                buffers@,
                idx,
            ) == self.written_element(before, *subset, subset_bytes@, idx, n as int) by {
                if subset.spec_contains(idx) {
                    lemma_element_of_position(*subset, idx);
                }
            }
        }
        let mut j: usize = chunks.len();
        proof {
            assert(chunks@.subrange(0, j as int) =~= chunks@);
            assert(buffers@.subrange(0, j as int) =~= buffers@);
        }
        while j > 0
            invariant
                self.wf(),
                self.same_layout(old(self)),
                before == old(self).values(),
                subset.wf(),
                old(self).subset_inside(*subset),
                n == subset.spec_num_elements(),
                subset_bytes@.len() == n * es,
                es == old(self).element_size(),
                forall|idx: Seq<u64>|
                    in_bounds(idx, old(self).spec_shape()) ==> #[trigger] old(self).cached_element(
                        before,
                        chunks@,
                        buffers@,
                        idx,
                    ) == old(self).written_element(before, *subset, subset_bytes@, idx, n as int),
                cs == self.spec_chunk_shape(),
                rank == self.spec_shape().len(),
                j <= chunks@.len(),
                old(self).cache_wf(chunks@, buffers@),
                forall|x: Seq<u64>|
                    x.len() == rank ==> #[trigger] old(self).cached_content(
                        self.values(),
                        chunks@.subrange(0, j as int),
                        buffers@.subrange(0, j as int),
                        x,
                    ) == old(self).cached_content(before, chunks@, buffers@, x),
                forall|x: Seq<u64>|
                    x.len() == rank && find_chunk(chunks@.subrange(0, j as int), x) >= 0
                        ==> #[trigger] old(self).chunk_content(self.values(), x)
                        == old(self).chunk_content(before, x),
                n * es <= usize::MAX,
            decreases j,
        {
            let ghost pre = self.values();
            match self.store_chunk(chunks[j - 1].as_slice(), buffers[j - 1].as_slice()) {
                Ok(()) => {},
                Err(e) => {
                    proof {
                        lemma_same_layout(&*old(self), &*self);
                        if e is CodecError {
                            assert(buffers@[j - 1]@.len() == old(self).chunk_num_bytes());
                            assert(old(self).spec_codecs().encoded(
                                buffers@[j - 1]@,
                                old(self).element_size(),
                            ) is None);
                        }
                        assert forall|x: Seq<u64>| x.len() == rank implies #[trigger] old(
                            self,
                        ).chunk_content(self.values(), x) == old(self).chunk_content(before, x)
                            || forall|idx: Seq<u64>|
                            in_bounds(idx, old(self).spec_shape()) && chunk_of(idx, cs) == x
                                ==> #[trigger] old(self).element(self.values(), idx)
                                == old(self).written_element(
                                before,
                                *subset,
                                subset_bytes@,
                                idx,
                                subset.spec_num_elements(),
                            ) by {
                            let hc = chunks@.subrange(0, j as int);
                            let hb = buffers@.subrange(0, j as int);
                            lemma_find_chunk_bounds(hc, x);
                            if find_chunk(hc, x) < 0 {
                                assert(old(self).cached_content(self.values(), hc, hb, x)
                                    == old(self).cached_content(before, chunks@, buffers@, x));
                                assert forall|idx: Seq<u64>|
                                    in_bounds(idx, old(self).spec_shape()) && chunk_of(idx, cs) == x
                                        implies #[trigger] old(self).element(self.values(), idx)
                                    == old(self).written_element(
                                    before,
                                    *subset,
                                    subset_bytes@,
                                    idx,
                                    subset.spec_num_elements(),
                                ) by {
                                    assert(old(self).cached_element(before, chunks@, buffers@, idx)
                                        == old(self).written_element(
                                        before,
                                        *subset,
                                        subset_bytes@,
                                        idx,
                                        n as int,
                                    ));
                                }
                            }
                        }
                    }
                    return Err(e);
                },
            }
            proof {
                lemma_same_layout(&*old(self), &*self);
                let c = chunks@[j - 1]@;
                let b = buffers@[j - 1]@;
                old(self).lemma_write_held(pre, self.values(), c, b);
                let hc = chunks@.subrange(0, j as int);
                let hb = buffers@.subrange(0, j as int);
                let hc2 = chunks@.subrange(0, j - 1);
                let hb2 = buffers@.subrange(0, j - 1);
                assert(hc.drop_last() =~= hc2);
                assert forall|x: Seq<u64>|
                    x.len() == rank && find_chunk(hc2, x) >= 0 implies #[trigger] old(
                    self,
                ).chunk_content(self.values(), x) == old(self).chunk_content(before, x) by {
                    lemma_find_chunk_bounds(hc2, x);
                    assert(hc2[find_chunk(hc2, x)] == chunks@[find_chunk(hc2, x)]);
                    assert(x != c);
                    assert(old(self).held_content(self.values(), None, x) == old(self).held_content(
                        pre,
                        Some((c, b)),
                        x,
                    ));
                    assert(find_chunk(hc, x) == find_chunk(hc2, x));
                }
                assert forall|x: Seq<u64>| x.len() == rank implies #[trigger] old(self).cached_content(
                    self.values(),
                    hc2,
                    hb2,
                    x,
                ) == old(self).cached_content(before, chunks@, buffers@, x) by {
                    assert(old(self).cached_content(pre, hc, hb, x) == old(self).cached_content(
                        before,
                        chunks@,
                        buffers@,
                        x,
                    ));
                    lemma_find_chunk_bounds(hc2, x);
                    assert(old(self).held_content(self.values(), None, x) == old(self).held_content(
                        pre,
                        Some((c, b)),
                        x,
                    ));
                    if x == c {
                        if find_chunk(hc2, x) >= 0 {
                            assert(hc2[find_chunk(hc2, x)] == chunks@[find_chunk(hc2, x)]);
                            assert(false);
                        }
                    } else {
                        if find_chunk(hc2, x) >= 0 {
                            assert(hb2[find_chunk(hc2, x)] == hb[find_chunk(hc2, x)]);
                        }
                    }
                }
            }
            j = j - 1;
        }
        proof {
            lemma_same_layout(&*old(self), &*self);
            assert forall|idx: Seq<u64>| in_bounds(idx, self.spec_shape()) implies #[trigger] old(self).element(
                self.values(),
                idx,
            ) == (if subset.spec_contains(idx) {
                Some(old(self).nth_element(subset_bytes@, subset.position_of(idx)))
            } else {
                old(self).element(before, idx)
            }) by {
                let x = chunk_of(idx, cs);
                assert(old(self).cached_content(
                    self.values(),
                    chunks@.subrange(0, 0),
                    buffers@.subrange(0, 0),
                    x,
                ) == old(self).cached_content(before, chunks@, buffers@, x));
                assert(old(self).cached_element(before, chunks@, buffers@, idx) == old(self).written_element(
                    before,
                    *subset,
                    subset_bytes@,
                    idx,
                    n as int,
                ));
                if subset.spec_contains(idx) {
                    lemma_element_of_position(*subset, idx);
                }
            }
        }
        Ok(())
    }
}

/// Arrays of one layout read a store alike.
proof fn lemma_same_layout<TStorage>(a: &Array<TStorage>, b: &Array<TStorage>)
    requires
        a.same_layout(b),
    ensures
        forall|chunk: Seq<u64>| #[trigger] a.chunk_key(chunk) == b.chunk_key(chunk),
        forall|values: Map<Seq<char>, Seq<u8>>, chunk: Seq<u64>|
            #[trigger] a.chunk_content(values, chunk) == b.chunk_content(values, chunk),
        a.chunk_num_bytes() == b.chunk_num_bytes(),
{
}

/// Two runs of `n` elements of `es` bytes that agree element by element are equal.
pub proof fn lemma_runs_equal(a: Seq<u8>, b: Seq<u8>, n: int, es: int)
    requires
        es >= 1,
        a.len() == n * es,
        b.len() == n * es,
        forall|k: int|
            0 <= k < n ==> #[trigger] a.subrange(k * es, k * es + es) == b.subrange(
                k * es,
                k * es + es,
            ),
    ensures
        a == b,
{
    assert forall|i: int| 0 <= i < a.len() implies a[i] == b[i] by {
        vstd::arithmetic::div_mod::lemma_fundamental_div_mod(i, es);
        let k = i / es;
        let j = i % es;
        assert(0 <= k < n) by (nonlinear_arith)
            requires
                0 <= i < n * es,
                i == es * k + j,
                0 <= j < es,
        ;
        assert(i == k * es + j) by (nonlinear_arith)
            requires
                i == es * k + j,
        ;
        lemma_element_ranges(k, k, n, es);
        assert(a.subrange(k * es, k * es + es)[j] == a[i]);
        assert(b.subrange(k * es, k * es + es)[j] == b[i]);
    }
    assert(a =~= b);
}

/// No element lies in both subsets.
pub open spec fn subsets_disjoint(a: ArraySubset, b: ArraySubset) -> bool {
    forall|indices: Seq<u64>| !(#[trigger] a.spec_contains(indices) && b.spec_contains(indices))
}

impl<TStorage: ReadableStorageTraits> Array<TStorage> {
    /// The elements of a subset inside the array lie inside the array.
    pub proof fn lemma_subset_element_in_bounds(&self, subset: ArraySubset, k: int)
        requires
            self.wf(),
            subset.wf(),
            self.subset_inside(subset),
            0 <= k < subset.spec_num_elements(),
        ensures
            in_bounds(subset.element_indices(k), self.spec_shape()),
            subset.spec_contains(subset.element_indices(k)),
            subset.position_of(subset.element_indices(k)) == k,
    {
        lemma_position_of_element(subset, k);
        let idx = subset.element_indices(k);
        assert forall|d: int| 0 <= d < self.spec_shape().len() implies #[trigger] idx[d]
            < self.spec_shape()[d] by {
            assert(subset.spec_start()[d] <= idx[d] < subset.spec_start()[d] + subset.spec_shape()[d]);
            assert(subset.spec_start()[d] + subset.spec_shape()[d] <= self.spec_shape()[d]);
        }
    }

    /// Region round trip: after `bytes` are stored to `subset`, reading `subset` gives
    /// `bytes` back.
    pub proof fn lemma_region_round_trip(
        &self,
        before: Map<Seq<char>, Seq<u8>>,
        after: Map<Seq<char>, Seq<u8>>,
        subset: ArraySubset,
        bytes: Seq<u8>,
        read: Seq<u8>,
    )
        requires
            self.wf(),
            subset.wf(),
            self.subset_inside(subset),
            bytes.len() == subset.spec_num_elements() * self.element_size(),
            self.subset_stored(before, after, subset, bytes),
            read.len() == subset.spec_num_elements() * self.element_size(),
            forall|k: int|
                0 <= k < subset.spec_num_elements() ==> self.element(
                    after,
                    subset.element_indices(k),
                ) == Some(#[trigger] self.nth_element(read, k)),
        ensures
            read == bytes,
    {
        assert forall|k: int| 0 <= k < subset.spec_num_elements() implies #[trigger] read.subrange(
            k * self.element_size(),
            k * self.element_size() + self.element_size(),
        ) == bytes.subrange(k * self.element_size(), k * self.element_size() + self.element_size()) by {
            self.lemma_subset_element_in_bounds(subset, k);
            assert(self.element(after, subset.element_indices(k)) == Some(self.nth_element(read, k)));
        }
        lemma_num_elements_nonneg(subset.spec_shape());
        lemma_runs_equal(read, bytes, subset.spec_num_elements(), self.element_size());
    }

    /// Region round trip, the other half: storing to `subset` leaves every element of a
    /// subset disjoint from it as it was.
    pub proof fn lemma_region_disjoint_unchanged(
        &self,
        before: Map<Seq<char>, Seq<u8>>,
        after: Map<Seq<char>, Seq<u8>>,
        subset: ArraySubset,
        bytes: Seq<u8>,
        other: ArraySubset,
    )
        requires
            self.wf(),
            subset.wf(),
            other.wf(),
            self.subset_inside(other),
            self.subset_stored(before, after, subset, bytes),
            subsets_disjoint(subset, other),
        ensures
            forall|k: int|
                0 <= k < other.spec_num_elements() ==> #[trigger] self.element(
                    after,
                    other.element_indices(k),
                ) == self.element(before, other.element_indices(k)),
    {
        assert forall|k: int| 0 <= k < other.spec_num_elements() implies #[trigger] self.element(
            after,
            other.element_indices(k),
        ) == self.element(before, other.element_indices(k)) by {
            self.lemma_subset_element_in_bounds(other, k);
            assert(!(subset.spec_contains(other.element_indices(k)) && other.spec_contains(
                other.element_indices(k),
            )));
        }
    }

    /// Chunk idempotence: storing a chunk's own decoded bytes back leaves what every chunk,
    /// and so every element, reads as it was.
    pub proof fn lemma_chunk_idempotent(
        &self,
        before: Map<Seq<char>, Seq<u8>>,
        after: Map<Seq<char>, Seq<u8>>,
        chunk: Seq<u64>,
        bytes: Seq<u8>,
    )
        requires
            self.wf(),
            chunk.len() == self.spec_shape().len(),
            self.chunk_content(before, chunk) == Some(bytes),
            self.chunk_stored(before, after, chunk, bytes),
        ensures
            forall|c: Seq<u64>|
                c.len() == self.spec_shape().len() ==> #[trigger] self.chunk_content(after, c)
                    == self.chunk_content(before, c),
            forall|indices: Seq<u64>|
                in_bounds(indices, self.spec_shape()) ==> #[trigger] self.element(after, indices)
                    == self.element(before, indices),
    {
        self.lemma_write_held(before, after, chunk, bytes);
        assert forall|c: Seq<u64>| c.len() == self.spec_shape().len() implies #[trigger] self.chunk_content(
            after,
            c,
        ) == self.chunk_content(before, c) by {
            assert(self.held_content(after, None, c) == self.held_content(
                before,
                Some((chunk, bytes)),
                c,
            ));
        }
        assert forall|indices: Seq<u64>| in_bounds(indices, self.spec_shape()) implies #[trigger] self.element(
            after,
            indices,
        ) == self.element(before, indices) by {
            assert(self.chunk_content(after, chunk_of(indices, self.spec_chunk_shape()))
                == self.chunk_content(before, chunk_of(indices, self.spec_chunk_shape())));
        }
    }

    /// Empty-chunk elision: where empty chunks are not kept, storing an all-fill chunk
    /// leaves no value at its key, and the chunk still reads as the fill value.
    pub proof fn lemma_empty_chunk_elided(
        &self,
        before: Map<Seq<char>, Seq<u8>>,
        after: Map<Seq<char>, Seq<u8>>,
        chunk: Seq<u64>,
    )
        requires
            !self.spec_store_empty_chunks(),
            self.chunk_stored(before, after, chunk, self.fill_chunk()),
        ensures
            !after.contains_key(self.chunk_key(chunk)),
            self.chunk_content(after, chunk) == Some(self.fill_chunk()),
    {
    }

    /// Disjoint subset writes: after writing `a_bytes` to `a` and then `b_bytes` to a
    /// disjoint `b`, each element holds what the write that covers it wrote, or what it
    /// held before. The result does not depend on the order of the two writes.
    pub proof fn lemma_disjoint_writes(
        &self,
        before: Map<Seq<char>, Seq<u8>>,
        middle: Map<Seq<char>, Seq<u8>>,
        after: Map<Seq<char>, Seq<u8>>,
        a: ArraySubset,
        a_bytes: Seq<u8>,
        b: ArraySubset,
        b_bytes: Seq<u8>,
    )
        requires
            self.subset_stored(before, middle, a, a_bytes),
            self.subset_stored(middle, after, b, b_bytes),
            subsets_disjoint(a, b),
        ensures
            forall|indices: Seq<u64>|
                in_bounds(indices, self.spec_shape()) ==> #[trigger] self.element(after, indices) == (
                if a.spec_contains(indices) {
                    Some(self.nth_element(a_bytes, a.position_of(indices)))
                } else if b.spec_contains(indices) {
                    Some(self.nth_element(b_bytes, b.position_of(indices)))
                } else {
                    self.element(before, indices)
                }),
    {
        assert forall|indices: Seq<u64>| in_bounds(indices, self.spec_shape()) implies #[trigger] self.element(
            after,
            indices,
        ) == (if a.spec_contains(indices) {
            Some(self.nth_element(a_bytes, a.position_of(indices)))
        } else if b.spec_contains(indices) {
            Some(self.nth_element(b_bytes, b.position_of(indices)))
        } else {
            self.element(before, indices)
        }) by {
            assert(self.element(middle, indices) == self.element(middle, indices));
            assert(!(a.spec_contains(indices) && b.spec_contains(indices)));
        }
    }
}

/// The dimension names as a sequence, where there are any.
pub open spec fn names_view(names: Option<Vec<Option<String>>>) -> Option<Seq<Option<String>>> {
    match names {
        Some(v) => Some(v@),
        None => None,
    }
}

/// Two metadata documents say the same.
pub open spec fn same_metadata(a: ArrayMetadataV3, b: ArrayMetadataV3) -> bool {
    &&& a.zarr_format == b.zarr_format
    &&& a.node_type@ == b.node_type@
    &&& a.shape@ == b.shape@
    &&& a.data_type == b.data_type
    &&& a.chunk_grid@ == b.chunk_grid@
    &&& a.chunk_key_encoding == b.chunk_key_encoding
    &&& a.fill_value@ == b.fill_value@
    &&& a.codecs@ == b.codecs@
    &&& a.attributes@ == b.attributes@
    &&& a.storage_transformers@ == b.storage_transformers@
    &&& names_view(a.dimension_names) == names_view(b.dimension_names)
    &&& a.additional_fields@ == b.additional_fields@
}

/// The first `n` of the checks that array metadata must pass, in the order they are made:
/// path, format, node type, additional fields, data type, chunk extents, ranks, fill
/// value, codecs, dimension names.
pub open spec fn passes_checks(path: Seq<char>, m: ArrayMetadataV3, n: int) -> bool {
    &&& (n >= 1 ==> crate::storage::valid_node_path(path))
    &&& (n >= 2 ==> m.zarr_format == 3)
    &&& (n >= 3 ==> m.node_type@ == "array"@)
    &&& (n >= 4 ==> forall|i: int|
        0 <= i < m.additional_fields@.len() ==> !(#[trigger] m.additional_fields@[i]).must_understand)
    &&& (n >= 5 ==> m.data_type.valid())
    &&& (n >= 6 ==> all_positive(m.chunk_grid@))
    &&& (n >= 7 ==> m.chunk_grid@.len() == m.shape@.len())
    &&& (n >= 8 ==> m.fill_value@.len() == m.data_type.spec_size())
    &&& (n >= 9 ==> crate::codec::valid_chain(m.codecs@))
    &&& (n >= 10 ==> (m.dimension_names matches Some(names) ==> names@.len() == m.shape@.len()))
}

/// The metadata describes a valid array at a valid path.
pub open spec fn valid_metadata(path: Seq<char>, m: ArrayMetadataV3) -> bool {
    &&& crate::storage::valid_node_path(path)
    &&& m.zarr_format == 3
    &&& m.node_type@ == "array"@
    &&& forall|i: int|
        0 <= i < m.additional_fields@.len() ==> !(#[trigger] m.additional_fields@[i]).must_understand
    &&& m.data_type.valid()
    &&& all_positive(m.chunk_grid@)
    &&& m.chunk_grid@.len() == m.shape@.len()
    &&& m.fill_value@.len() == m.data_type.spec_size()
    &&& crate::codec::valid_chain(m.codecs@)
    &&& (m.dimension_names matches Some(names) ==> names@.len() == m.shape@.len())
    &&& shapes_fit(m.shape@, m.chunk_grid@, m.data_type.spec_size())
}

fn copy_codecs(v: &Vec<Codec>) -> (r: Vec<Codec>)
    ensures
        r@ == v@,
{
    let mut r: Vec<Codec> = Vec::new();
    let mut i: usize = 0;
    while i < v.len()
        invariant
            i <= v@.len(),
            r@ == v@.subrange(0, i as int),
        decreases v@.len() - i,
    {
        r.push(v[i]);
        proof {
            assert(r@ =~= v@.subrange(0, i + 1));
        }
        i = i + 1;
    }
    proof {
        assert(v@.subrange(0, v@.len() as int) =~= v@);
    }
    r
}

fn copy_strings(v: &Vec<String>) -> (r: Vec<String>)
    ensures
        r@ == v@,
{
    let mut r: Vec<String> = Vec::new();
    let mut i: usize = 0;
    while i < v.len()
        invariant
            i <= v@.len(),
            r@ == v@.subrange(0, i as int),
        decreases v@.len() - i,
    {
        r.push(v[i].clone());
        proof {
            assert(r@ =~= v@.subrange(0, i + 1));
        }
        i = i + 1;
    }
    proof {
        assert(v@.subrange(0, v@.len() as int) =~= v@);
    }
    r
}

fn copy_names(names: &Option<Vec<Option<String>>>) -> (r: Option<Vec<Option<String>>>)
    ensures
        names_view(r) == names_view(*names),
{
    match names {
        None => None,
        Some(v) => {
            let mut r: Vec<Option<String>> = Vec::new();
            let mut i: usize = 0;
            while i < v.len()
                invariant
                    i <= v@.len(),
                    r@ == v@.subrange(0, i as int),
                decreases v@.len() - i,
            {
                let n = match &v[i] {
                    Some(s) => Some(s.clone()),
                    None => None,
                };
                r.push(n);
                proof {
                    assert(r@ =~= v@.subrange(0, i + 1));
                }
                i = i + 1;
            }
            proof {
                assert(v@.subrange(0, v@.len() as int) =~= v@);
            }
            Some(r)
        },
    }
}

fn copy_fields(v: &Vec<AdditionalField>) -> (r: Vec<AdditionalField>)
    ensures
        r@ == v@,
{
    let mut r: Vec<AdditionalField> = Vec::new();
    let mut i: usize = 0;
    while i < v.len()
        invariant
            i <= v@.len(),
            r@ == v@.subrange(0, i as int),
        decreases v@.len() - i,
    {
        let f = &v[i];
        r.push(
            AdditionalField {
                name: f.name.clone(),
                value: f.value.clone(),
                must_understand: f.must_understand,
            },
        );
        proof {
            assert(r@ =~= v@.subrange(0, i + 1));
        }
        i = i + 1;
    }
    proof {
        assert(v@.subrange(0, v@.len() as int) =~= v@);
    }
    r
}

impl<TStorage> Array<TStorage> {
    /// The array is described by metadata `m`.
    pub open spec fn describes(&self, m: ArrayMetadataV3) -> bool {
        &&& m.zarr_format == 3
        &&& m.node_type@ == "array"@
        &&& self.spec_shape() == m.shape@
        &&& self.spec_data_type() == m.data_type
        &&& self.spec_chunk_shape() == m.chunk_grid@
        &&& self.spec_chunk_key_encoding() == m.chunk_key_encoding
        &&& self.spec_fill_value() == m.fill_value@
        &&& m.codecs@.len() >= 1
        &&& Codec::ArrayToBytes(self.spec_codecs().spec_array_to_bytes()) == m.codecs@[0]
        &&& self.spec_codecs().spec_bytes_to_bytes().len() == m.codecs@.len() - 1
        &&& (forall|i: int|
            0 <= i < self.spec_codecs().spec_bytes_to_bytes().len() ==> Codec::BytesToBytes(
                #[trigger] self.spec_codecs().spec_bytes_to_bytes()[i],
            ) == m.codecs@[i + 1])
        &&& self.spec_attributes() == m.attributes@
        &&& self.spec_storage_transformers() == m.storage_transformers@
        &&& self.spec_dimension_names() == names_view(m.dimension_names)
        &&& self.spec_additional_fields() == m.additional_fields@
    }

    /// Whether the array's metadata is to carry this library's own record in its
    /// attributes.
    pub closed spec fn spec_include_zarrs_metadata(&self) -> bool {
        self.include_zarrs_metadata
    }

    pub closed spec fn spec_parallel_codecs(&self) -> bool {
        self.parallel_codecs
    }

    pub closed spec fn spec_attributes(&self) -> Seq<char> {
        self.attributes@
    }

    pub closed spec fn spec_dimension_names(&self) -> Option<Seq<Option<String>>> {
        names_view(self.dimension_names)
    }

    pub closed spec fn spec_additional_fields(&self) -> Seq<AdditionalField> {
        self.additional_fields@
    }

    pub closed spec fn spec_storage_transformers(&self) -> Seq<String> {
        self.storage_transformers@
    }
}

/// Metadata round trip: two documents that describe one array say the same.
pub proof fn lemma_metadata_round_trip<TStorage>(
    array: &Array<TStorage>,
    a: ArrayMetadataV3,
    b: ArrayMetadataV3,
)
    requires
        array.describes(a),
        array.describes(b),
    ensures
        same_metadata(a, b),
{
    assert(a.codecs@ =~= b.codecs@) by {
        assert forall|i: int| 0 <= i < a.codecs@.len() implies a.codecs@[i] == b.codecs@[i] by {
            if i > 0 {
                assert(Codec::BytesToBytes(array.spec_codecs().spec_bytes_to_bytes()[i - 1])
                    == a.codecs@[i]);
            }
        }
    }
}

impl<TStorage: ReadableStorageTraits> Array<TStorage> {
    /// The array at `path` in `storage` that `metadata` describes. Nothing is written.
    #[verifier::loop_isolation(false)]
    pub fn new_with_metadata(storage: TStorage, path: &str, metadata: ArrayMetadataV3) -> (r:
        Result<Array<TStorage>, ArrayCreateError>)
        ensures
            r is Ok <==> valid_metadata(path@, metadata),
            r matches Ok(a) ==> a.wf() && a.describes(metadata) && a.spec_path() == path@
                && a.values() == storage.values() && !a.spec_store_empty_chunks()
                && a.spec_include_zarrs_metadata() && a.spec_parallel_codecs(),
            !passes_checks(path@, metadata, 1) ==> r matches Err(ArrayCreateError::InvalidPath(_)),
            passes_checks(path@, metadata, 1) && !passes_checks(path@, metadata, 2) ==> r == Err::<
                Array<TStorage>,
                ArrayCreateError,
            >(ArrayCreateError::InvalidZarrFormat(metadata.zarr_format)),
            passes_checks(path@, metadata, 2) && !passes_checks(path@, metadata, 3) ==> r == Err::<
                Array<TStorage>,
                ArrayCreateError,
            >(ArrayCreateError::InvalidNodeType(metadata.node_type)),
            passes_checks(path@, metadata, 3) && !passes_checks(path@, metadata, 4) ==> (r matches Err(
                ArrayCreateError::UnsupportedAdditionalField(name),
            ) && exists|i: int|
                0 <= i < metadata.additional_fields@.len()
                    && (#[trigger] metadata.additional_fields@[i]).must_understand
                    && metadata.additional_fields@[i].name == name),
            passes_checks(path@, metadata, 4) && !passes_checks(path@, metadata, 5) ==> r == Err::<
                Array<TStorage>,
                ArrayCreateError,
            >(ArrayCreateError::InvalidDataType),
            passes_checks(path@, metadata, 5) && !passes_checks(path@, metadata, 6) ==> r == Err::<
                Array<TStorage>,
                ArrayCreateError,
            >(ArrayCreateError::InvalidChunkGrid),
            passes_checks(path@, metadata, 6) && !passes_checks(path@, metadata, 7) ==> r == Err::<
                Array<TStorage>,
                ArrayCreateError,
            >(
                ArrayCreateError::InvalidChunkGridDimensionality(
                    metadata.chunk_grid@.len() as usize,
                    metadata.shape@.len() as usize,
                ),
            ),
            passes_checks(path@, metadata, 7) && !passes_checks(path@, metadata, 8) ==> r == Err::<
                Array<TStorage>,
                ArrayCreateError,
            >(
                ArrayCreateError::InvalidFillValue(
                    metadata.fill_value@.len() as usize,
                    metadata.data_type.spec_size() as usize,
                ),
            ),
            passes_checks(path@, metadata, 8) && !passes_checks(path@, metadata, 9) ==> r == Err::<
                Array<TStorage>,
                ArrayCreateError,
            >(ArrayCreateError::InvalidCodecs),
            passes_checks(path@, metadata, 9) && !passes_checks(path@, metadata, 10) ==> (
            metadata.dimension_names matches Some(names) && r == Err::<
                Array<TStorage>,
                ArrayCreateError,
            >(
                ArrayCreateError::InvalidDimensionNames(
                    names@.len() as usize,
                    metadata.shape@.len() as usize,
                ),
            )),
            passes_checks(path@, metadata, 10) && !valid_metadata(path@, metadata) ==> r == Err::<
                Array<TStorage>,
                ArrayCreateError,
            >(ArrayCreateError::ShapeTooLarge),
    {
        let node_path = match NodePath::new(path) {
            Ok(p) => p,
            Err(e) => return Err(ArrayCreateError::InvalidPath(e.0)),
        };
        if metadata.zarr_format != 3 {
            return Err(ArrayCreateError::InvalidZarrFormat(metadata.zarr_format));
        }
        if !crate::codec::str_eq(metadata.node_type.as_str(), "array") {
            return Err(ArrayCreateError::InvalidNodeType(metadata.node_type));
        }
        let mut i: usize = 0;
        while i < metadata.additional_fields.len()
            invariant
                i <= metadata.additional_fields@.len(),
                forall|j: int|
                    0 <= j < i ==> !(#[trigger] metadata.additional_fields@[j]).must_understand,
            decreases metadata.additional_fields@.len() - i,
        {
            if metadata.additional_fields[i].must_understand {
                return Err(
                    ArrayCreateError::UnsupportedAdditionalField(
                        metadata.additional_fields[i].name.clone(),
                    ),
                );
            }
            i = i + 1;
        }
        match metadata.data_type {
            DataType::RawBits(bits) => {
                if bits == 0 || bits % 8 != 0 {
                    return Err(ArrayCreateError::InvalidDataType);
                }
            },
            _ => {},
        }
        let chunk_grid = match RegularChunkGrid::new(copy_indices(metadata.chunk_grid.as_slice())) {
            Some(g) => g,
            None => return Err(ArrayCreateError::InvalidChunkGrid),
        };
        if chunk_grid.dimensionality() != metadata.shape.len() {
            return Err(
                ArrayCreateError::InvalidChunkGridDimensionality(
                    chunk_grid.dimensionality(),
                    metadata.shape.len(),
                ),
            );
        }
        let es = metadata.data_type.size();
        if metadata.fill_value.len() != es {
            return Err(ArrayCreateError::InvalidFillValue(metadata.fill_value.len(), es));
        }
        let codecs = match CodecChain::from_codecs(metadata.codecs.as_slice()) {
            Ok(c) => c,
            Err(_) => return Err(ArrayCreateError::InvalidCodecs),
        };
        match &metadata.dimension_names {
            Some(names) => {
                if names.len() != metadata.shape.len() {
                    return Err(
                        ArrayCreateError::InvalidDimensionNames(names.len(), metadata.shape.len()),
                    );
                }
            },
            None => {},
        }
        let mut d: usize = 0;
        while d < metadata.shape.len()
            invariant
                d <= metadata.shape@.len(),
                metadata.shape@.len() == metadata.chunk_grid@.len(),
                forall|e: int|
                    0 <= e < d ==> #[trigger] metadata.shape@[e] + metadata.chunk_grid@[e]
                        <= u64::MAX,
            decreases metadata.shape@.len() - d,
        {
            if metadata.shape[d] > u64::MAX - metadata.chunk_grid[d] {
                return Err(ArrayCreateError::ShapeTooLarge);
            }
            d = d + 1;
        }
        let n = match crate::indices::checked_num_elements(metadata.chunk_grid.as_slice()) {
            Some(n) => n,
            None => {
                proof {
                    let m = num_elements(metadata.chunk_grid@);
                    assert(m * es > usize::MAX) by (nonlinear_arith)
                        requires
                            m > u64::MAX,
                            es >= 1,
                            usize::MAX <= u64::MAX,
                    ;
                }
                return Err(ArrayCreateError::ShapeTooLarge);
            },
        };
        if n > (usize::MAX / es) as u64 {
            proof {
                assert(n * es > usize::MAX) by (nonlinear_arith)
                    requires
                        n > usize::MAX / es,
                        es >= 1,
                ;
            }
            return Err(ArrayCreateError::ShapeTooLarge);
        }
        proof {
            assert(n * es <= usize::MAX) by (nonlinear_arith)
                requires
                    n <= usize::MAX / es,
                    es >= 1,
            ;
        }
        let array = Array {
            storage,
            path: node_path,
            shape: metadata.shape,
            data_type: metadata.data_type,
            chunk_grid,
            chunk_key_encoding: metadata.chunk_key_encoding,
            fill_value: metadata.fill_value,
            codecs,
            attributes: metadata.attributes,
            storage_transformers: metadata.storage_transformers,
            dimension_names: metadata.dimension_names,
            additional_fields: metadata.additional_fields,
            parallel_codecs: true,
            include_zarrs_metadata: true,
            store_empty_chunks: false,
        };
        Ok(array)
    }

    /// The array's metadata.
    pub fn metadata(&self) -> (r: ArrayMetadataV3)
        requires
            self.wf(),
        ensures
            self.describes(r),
    {
        let mut codecs: Vec<Codec> = Vec::new();
        codecs.push(Codec::ArrayToBytes(self.codecs.array_to_bytes()));
        let stages = self.codecs.bytes_to_bytes();
        let mut i: usize = 0;
        while i < stages.len()
            invariant
                stages@ == self.codecs.spec_bytes_to_bytes(),
                i <= stages@.len(),
                codecs@.len() == i + 1,
                codecs@[0] == Codec::ArrayToBytes(self.codecs.spec_array_to_bytes()),
                forall|j: int|
                    0 <= j < i ==> codecs@[j + 1] == Codec::BytesToBytes(#[trigger] stages@[j]),
            decreases stages@.len() - i,
        {
            codecs.push(Codec::BytesToBytes(stages[i]));
            i = i + 1;
        }
        proof {
            assert(codecs@.len() == stages@.len() + 1);
        }
        let r = ArrayMetadataV3 {
            zarr_format: 3,
            node_type: String::from_str("array"),
            shape: copy_indices(self.shape.as_slice()),
            data_type: self.data_type,
            chunk_grid: copy_indices(self.chunk_grid.chunk_shape().as_slice()),
            chunk_key_encoding: self.chunk_key_encoding,
            fill_value: copy_all(self.fill_value.as_slice()),
            codecs,
            attributes: self.attributes.clone(),
            storage_transformers: copy_strings(&self.storage_transformers),
            dimension_names: copy_names(&self.dimension_names),
            additional_fields: copy_fields(&self.additional_fields),
        };
        proof {
            reveal_strlit("array");
        }
        r
    }
}

impl<TStorage> Array<TStorage> {
    /// The subset lies inside a chunk.
    pub open spec fn inside_chunk(&self, chunk_subset: ArraySubset) -> bool {
        &&& chunk_subset.spec_start().len() == self.spec_chunk_shape().len()
        &&& forall|d: int|
            0 <= d < self.spec_chunk_shape().len() ==> #[trigger] chunk_subset.spec_start()[d]
                + chunk_subset.spec_shape()[d] <= self.spec_chunk_shape()[d]
    }

    /// The bytes of the element at position `within` of chunk bytes `content`.
    pub open spec fn chunk_element_bytes(&self, content: Seq<u8>, within: Seq<u64>) -> Seq<u8> {
        let o = ravel(within, self.spec_chunk_shape());
        content.subrange(o * self.element_size(), o * self.element_size() + self.element_size())
    }

    /// Chunk bytes `after` are `before` with the elements of `chunk_subset` replaced, in
    /// row-major order, by those of `bytes`.
    pub open spec fn chunk_subset_written(
        &self,
        before: Seq<u8>,
        after: Seq<u8>,
        chunk_subset: ArraySubset,
        bytes: Seq<u8>,
    ) -> bool {
        &&& after.len() == before.len()
        &&& forall|within: Seq<u64>|
            in_bounds(within, self.spec_chunk_shape()) ==> #[trigger] self.chunk_element_bytes(
                after,
                within,
            ) == if chunk_subset.spec_contains(within) {
                self.nth_element(bytes, chunk_subset.position_of(within))
            } else {
                self.chunk_element_bytes(before, within)
            }
    }

    pub fn set_parallel_codecs(&mut self, parallel_codecs: bool)
        ensures
            final(self).same_layout(old(self)),
            final(self).spec_parallel_codecs() == parallel_codecs,
            final(self).spec_storage() == old(self).spec_storage(),
    {
        self.parallel_codecs = parallel_codecs;
    }

    pub fn parallel_codecs(&self) -> (r: bool)
        ensures
            r == self.spec_parallel_codecs(),
    {
        self.parallel_codecs
    }

    pub fn set_include_zarrs_metadata(&mut self, include_zarrs_metadata: bool)
        ensures
            final(self).same_layout(old(self)),
            final(self).spec_include_zarrs_metadata() == include_zarrs_metadata,
            final(self).spec_storage() == old(self).spec_storage(),
    {
        self.include_zarrs_metadata = include_zarrs_metadata;
    }

    pub fn include_zarrs_metadata(&self) -> (r: bool)
        ensures
            r == self.spec_include_zarrs_metadata(),
    {
        self.include_zarrs_metadata
    }

    /// Whether chunks that hold only the fill value are written (`true`) or erased.
    pub fn set_store_empty_chunks(&mut self, store_empty_chunks: bool)
        ensures
            final(self).spec_store_empty_chunks() == store_empty_chunks,
            final(self).spec_shape() == old(self).spec_shape(),
            final(self).spec_chunk_shape() == old(self).spec_chunk_shape(),
            final(self).spec_data_type() == old(self).spec_data_type(),
            final(self).spec_fill_value() == old(self).spec_fill_value(),
            final(self).spec_codecs() == old(self).spec_codecs(),
            final(self).spec_path() == old(self).spec_path(),
            final(self).spec_chunk_key_encoding() == old(self).spec_chunk_key_encoding(),
            final(self).parts_wf() == old(self).parts_wf(),
            final(self).spec_storage() == old(self).spec_storage(),
            final(self).same_descriptive_parts(old(self)),
            final(self).spec_include_zarrs_metadata() == old(self).spec_include_zarrs_metadata(),
            final(self).spec_parallel_codecs() == old(self).spec_parallel_codecs(),
    {
        self.store_empty_chunks = store_empty_chunks;
    }

    pub fn store_empty_chunks(&self) -> (r: bool)
        ensures
            r == self.spec_store_empty_chunks(),
    {
        self.store_empty_chunks
    }

    /// Whether checksum codecs check the checksum when a chunk is decoded.
    pub fn set_validate_checksums(&mut self, validate_checksums: bool)
        ensures
            final(self).spec_codecs().spec_validate_checksums() == validate_checksums,
            final(self).spec_codecs().spec_array_to_bytes()
                == old(self).spec_codecs().spec_array_to_bytes(),
            final(self).spec_codecs().spec_bytes_to_bytes()
                == old(self).spec_codecs().spec_bytes_to_bytes(),
            final(self).spec_shape() == old(self).spec_shape(),
            final(self).spec_chunk_shape() == old(self).spec_chunk_shape(),
            final(self).spec_data_type() == old(self).spec_data_type(),
            final(self).spec_fill_value() == old(self).spec_fill_value(),
            final(self).spec_path() == old(self).spec_path(),
            final(self).spec_chunk_key_encoding() == old(self).spec_chunk_key_encoding(),
            final(self).spec_store_empty_chunks() == old(self).spec_store_empty_chunks(),
            final(self).parts_wf() == old(self).parts_wf(),
            final(self).spec_storage() == old(self).spec_storage(),
            final(self).same_descriptive_parts(old(self)),
            final(self).spec_include_zarrs_metadata() == old(self).spec_include_zarrs_metadata(),
            final(self).spec_parallel_codecs() == old(self).spec_parallel_codecs(),
    {
        self.codecs.set_validate_checksums(validate_checksums);
    }

    /// Sets the array's shape.
    pub fn set_shape(&mut self, shape: Vec<u64>)
        requires
            shape@.len() == old(self).spec_shape().len(),
            forall|d: int|
                0 <= d < shape@.len() ==> #[trigger] shape@[d] + old(self).spec_chunk_shape()[d]
                    <= u64::MAX,
        ensures
            final(self).spec_shape() == shape@,
            final(self).spec_chunk_shape() == old(self).spec_chunk_shape(),
            final(self).spec_data_type() == old(self).spec_data_type(),
            final(self).spec_fill_value() == old(self).spec_fill_value(),
            final(self).spec_codecs() == old(self).spec_codecs(),
            final(self).spec_path() == old(self).spec_path(),
            final(self).spec_chunk_key_encoding() == old(self).spec_chunk_key_encoding(),
            final(self).spec_store_empty_chunks() == old(self).spec_store_empty_chunks(),
            final(self).parts_wf() == old(self).parts_wf(),
            final(self).spec_storage() == old(self).spec_storage(),
            final(self).same_descriptive_parts(old(self)),
            final(self).spec_include_zarrs_metadata() == old(self).spec_include_zarrs_metadata(),
            final(self).spec_parallel_codecs() == old(self).spec_parallel_codecs(),
    {
        self.shape = shape;
    }

    /// The attributes, as JSON text.
    pub fn attributes(&self) -> (r: &String)
        ensures
            r@ == self.spec_attributes(),
    {
        &self.attributes
    }

    /// Sets the attributes, given as JSON text.
    pub fn set_attributes(&mut self, attributes: String)
        ensures
            final(self).spec_storage() == old(self).spec_storage(),
            final(self).spec_attributes() == attributes@,
            final(self).spec_shape() == old(self).spec_shape(),
            final(self).spec_chunk_shape() == old(self).spec_chunk_shape(),
            final(self).spec_data_type() == old(self).spec_data_type(),
            final(self).spec_fill_value() == old(self).spec_fill_value(),
            final(self).spec_codecs() == old(self).spec_codecs(),
            final(self).spec_path() == old(self).spec_path(),
            final(self).spec_chunk_key_encoding() == old(self).spec_chunk_key_encoding(),
            final(self).spec_store_empty_chunks() == old(self).spec_store_empty_chunks(),
            final(self).parts_wf() == old(self).parts_wf(),
            final(self).spec_dimension_names() == old(self).spec_dimension_names(),
            final(self).spec_additional_fields() == old(self).spec_additional_fields(),
            final(self).spec_storage_transformers() == old(self).spec_storage_transformers(),
            final(self).spec_include_zarrs_metadata() == old(self).spec_include_zarrs_metadata(),
            final(self).spec_parallel_codecs() == old(self).spec_parallel_codecs(),
    {
        self.attributes = attributes;
    }

    pub fn dimension_names(&self) -> (r: &Option<Vec<Option<String>>>)
        ensures
            names_view(*r) == self.spec_dimension_names(),
    {
        &self.dimension_names
    }

    pub fn additional_fields(&self) -> (r: &Vec<AdditionalField>)
        ensures
            r@ == self.spec_additional_fields(),
    {
        &self.additional_fields
    }

    pub fn storage_transformers(&self) -> (r: &Vec<String>)
        ensures
            r@ == self.spec_storage_transformers(),
    {
        &self.storage_transformers
    }
}

impl<TStorage: ReadableStorageTraits> Array<TStorage> {
    /// The number of chunks along each dimension.
    pub fn chunk_grid_shape(&self) -> (r: Vec<u64>)
        requires
            self.wf(),
        ensures
            r@ == grid_shape_of(self.spec_shape(), self.spec_chunk_shape()),
    {
        match self.chunk_grid.grid_shape(self.shape.as_slice()) {
            Ok(g) => g,
            Err(_) => Vec::new(),
        }
    }

    /// The shape of chunk `chunk_indices`.
    pub fn chunk_shape(&self, chunk_indices: &[u64]) -> (r: Result<Vec<u64>, ArrayError>)
        requires
            self.wf(),
        ensures
            r is Ok <==> self.chunk_in_grid(chunk_indices@),
            r matches Ok(s) ==> s@ == self.spec_chunk_shape(),
            r is Err ==> (r matches Err(ArrayError::InvalidChunkGridIndicesError(v)) && v@
                == chunk_indices@),
    {
        match self.chunk_grid.chunk_shape_at(chunk_indices, self.shape.as_slice()) {
            Ok(Some(s)) => Ok(s),
            _ => Err(ArrayError::InvalidChunkGridIndicesError(copy_indices(chunk_indices))),
        }
    }

    /// The region of the array covered by chunk `chunk_indices`; at the far edges it may
    /// reach past the array.
    pub fn chunk_subset(&self, chunk_indices: &[u64]) -> (r: Result<ArraySubset, ArrayError>)
        requires
            self.wf(),
        ensures
            r is Ok <==> self.chunk_in_grid(chunk_indices@),
            r matches Ok(s) ==> s.wf() && s.spec_shape() == self.spec_chunk_shape()
                && s.spec_start().len() == chunk_indices@.len() && (forall|d: int|
                0 <= d < chunk_indices@.len() ==> #[trigger] s.spec_start()[d] == chunk_indices@[d]
                    * self.spec_chunk_shape()[d]),
            r is Err ==> (r matches Err(ArrayError::InvalidChunkGridIndicesError(v)) && v@
                == chunk_indices@),
    {
        match self.chunk_grid.subset(chunk_indices, self.shape.as_slice()) {
            Ok(Some(s)) => Ok(s),
            _ => Err(ArrayError::InvalidChunkGridIndicesError(copy_indices(chunk_indices))),
        }
    }

    /// The region of the array covered by chunk `chunk_indices`, clipped to the array.
    pub fn chunk_subset_bounded(&self, chunk_indices: &[u64]) -> (r: Result<ArraySubset, ArrayError>)
        requires
            self.wf(),
        ensures
            r is Ok <==> self.chunk_in_grid(chunk_indices@),
            r matches Ok(s) ==> s.wf() && forall|i: Seq<u64>|
                #[trigger] s.spec_contains(i) <==> in_bounds(i, self.spec_shape())
                    && chunk_of(i, self.spec_chunk_shape()) == chunk_indices@,
            r matches Ok(s) ==> s.spec_start().len() == chunk_indices@.len() && forall|d: int|
                0 <= d < chunk_indices@.len() ==> #[trigger] s.spec_start()[d] == chunk_indices@[d]
                    * self.spec_chunk_shape()[d] && s.spec_shape()[d] == gap(
                    s.spec_start()[d],
                    min_int(
                        chunk_indices@[d] * self.spec_chunk_shape()[d] + self.spec_chunk_shape()[d],
                        self.spec_shape()[d] as int,
                    ),
                ),
    {
        let subset = match self.chunk_subset(chunk_indices) {
            Ok(s) => s,
            Err(e) => return Err(e),
        };
        let r = subset.bound(&self.shape);
        match r {
            Ok(b) => {
                proof {
                    let cs = self.spec_chunk_shape();
                    assert forall|i: Seq<u64>| #[trigger] b.spec_contains(i) <==> in_bounds(
                        i,
                        self.spec_shape(),
                    ) && chunk_of(i, cs) == chunk_indices@ by {
                        if i.len() == cs.len() {
                            if subset.spec_contains(i) {
                                assert forall|d: int| 0 <= d < cs.len() implies #[trigger] chunk_of(
                                    i,
                                    cs,
                                )[d] == chunk_indices@[d] by {
                                    let x = i[d] as int;
                                    let c = cs[d] as int;
                                    assert(c > 0);
                                    assert(subset.spec_start()[d] <= i[d] < subset.spec_start()[d]
                                        + subset.spec_shape()[d]);
                                    assert(subset.spec_start()[d] == chunk_indices@[d] * cs[d]);
                                    assert(subset.spec_shape()[d] == cs[d]);
                                    assert(subset.spec_start()[d] + cs[d] <= u64::MAX);
                                    assert(chunk_indices@[d] * c + (x - chunk_indices@[d] * c) == x);
                                    vstd::arithmetic::div_mod::lemma_fundamental_div_mod_converse(
                                        x,
                                        c,
                                        chunk_indices@[d] as int,
                                        x - chunk_indices@[d] * c,
                                    );
                                }
                                assert(chunk_of(i, cs) =~= chunk_indices@);
                            }
                            if chunk_of(i, cs) == chunk_indices@ {
                                lemma_chunk_decompose(i, cs);
                                assert forall|d: int| 0 <= d < cs.len() implies subset.spec_start()[d]
                                    <= #[trigger] i[d] < subset.spec_start()[d]
                                    + subset.spec_shape()[d] by {
                                    assert(chunk_of(i, cs)[d] == chunk_indices@[d]);
                                    assert(within_chunk(i, cs)[d] < cs[d]);
                                    assert(subset.spec_start()[d] == chunk_indices@[d] * cs[d]);
                                    assert(subset.spec_shape()[d] == cs[d]);
                                    assert(subset.spec_start()[d] + cs[d] <= u64::MAX);
                                    assert(chunk_element(chunk_of(i, cs), within_chunk(i, cs), cs)[d]
                                        == i[d]);
                                }
                            }
                        }
                    }
                }
                Ok(b)
            },
            Err(_) => Err(ArrayError::InvalidChunkGridIndicesError(copy_indices(chunk_indices))),
        }
    }
}

impl<TStorage: ReadableStorageTraits> Array<TStorage> {
    /// Whether `chunk_subset` has the chunk's rank and lies inside a chunk.
    fn check_chunk_subset(&self, chunk_subset: &ArraySubset) -> (r: bool)
        requires
            self.wf(),
            chunk_subset.wf(),
        ensures
            r == self.inside_chunk(*chunk_subset),
    {
        let cs = self.chunk_grid.chunk_shape();
        let n = cs.len();
        if chunk_subset.dimensionality() != n {
            return false;
        }
        let start = chunk_subset.start();
        let extent = chunk_subset.shape();
        let mut d: usize = 0;
        while d < n
            invariant
                chunk_subset.wf(),
                n == self.spec_chunk_shape().len(),
                cs@ == self.spec_chunk_shape(),
                start@ == chunk_subset.spec_start(),
                extent@ == chunk_subset.spec_shape(),
                start@.len() == n,
                d <= n,
                forall|e: int|
                    0 <= e < d ==> #[trigger] chunk_subset.spec_start()[e]
                        + chunk_subset.spec_shape()[e] <= self.spec_chunk_shape()[e],
            decreases n - d,
        {
            if start[d] + extent[d] > cs[d] {
                return false;
            }
            d = d + 1;
        }
        true
    }

    /// The position in the chunk of element `k` of `chunk_subset`.
    fn locate_in_chunk(&self, chunk_subset: &ArraySubset, k: u64) -> (r: usize)
        requires
            self.wf(),
            chunk_subset.wf(),
            self.inside_chunk(*chunk_subset),
            k < chunk_subset.spec_num_elements(),
        ensures
            in_bounds(chunk_subset.element_indices(k as int), self.spec_chunk_shape()),
            r == ravel(chunk_subset.element_indices(k as int), self.spec_chunk_shape()),
            r < num_elements(self.spec_chunk_shape()),
    {
        let extent = chunk_subset.shape();
        proof {
            assert(all_positive(extent@)) by {
                if !all_positive(extent@) {
                    let d = choose|d: int| 0 <= d < extent@.len() && !(extent@[d] > 0);
                    lemma_num_elements_zero(extent@, d);
                }
            }
            lemma_unravel_ravel(k as int, extent@);
        }
        let u = unravel_index(k, extent.as_slice());
        let start = chunk_subset.start();
        let cs = self.chunk_grid.chunk_shape();
        let ghost w = chunk_subset.element_indices(k as int);
        let n = start.len();
        let mut v: Vec<u64> = Vec::new();
        let mut d: usize = 0;
        while d < n
            invariant
                chunk_subset.wf(),
                n == start@.len(),
                start@ == chunk_subset.spec_start(),
                extent@ == chunk_subset.spec_shape(),
                u@ == unravel(k as int, extent@),
                in_bounds(u@, extent@),
                w == chunk_subset.element_indices(k as int),
                d <= n,
                v@ =~= w.subrange(0, d as int),
            decreases n - d,
        {
            assert(u@[d as int] < extent@[d as int]);
            assert(start@[d as int] + extent@[d as int] <= u64::MAX);
            v.push(start[d] + u[d]);
            d = d + 1;
        }
        proof {
            assert(v@ =~= w);
            assert(in_bounds(w, cs@)) by {
                assert forall|e: int| 0 <= e < n implies #[trigger] w[e] < cs@[e] by {
                    assert(u@[e] < extent@[e]);
                    assert(chunk_subset.spec_start()[e] + chunk_subset.spec_shape()[e] <= cs@[e]);
                }
            }
            lemma_ravel_unravel(w, cs@);
            lemma_num_elements_nonneg(cs@);
            let m = num_elements(cs@);
            let es = self.element_size();
            assert(m <= m * es) by (nonlinear_arith)
                requires
                    m >= 0,
                    es >= 1,
            ;
        }
        let o = ravel_indices(v.as_slice(), cs.as_slice());
        o as usize
    }

    /// The bytes of the elements of `chunk_subset`, a region given relative to chunk
    /// `chunk_indices`, in row-major order.
    pub fn retrieve_chunk_subset(&self, chunk_indices: &[u64], chunk_subset: &ArraySubset) -> (r:
        Result<Vec<u8>, ArrayError>)
        requires
            self.wf(),
            chunk_subset.wf(),
        ensures
            !self.chunk_in_grid(chunk_indices@) ==> (r matches Err(
                ArrayError::InvalidChunkGridIndicesError(v),
            ) && v@ == chunk_indices@),
            self.chunk_in_grid(chunk_indices@) && !self.inside_chunk(*chunk_subset) ==> r matches Err(
                ArrayError::InvalidArraySubset,
            ),
            r matches Ok(out) ==> {
                let content = self.chunk_content(self.values(), chunk_indices@);
                &&& self.chunk_in_grid(chunk_indices@)
                &&& self.inside_chunk(*chunk_subset)
                &&& content is Some
                &&& out@.len() == chunk_subset.spec_num_elements() * self.element_size()
                &&& forall|k: int|
                    0 <= k < chunk_subset.spec_num_elements() ==> #[trigger] self.nth_element(
                        out@,
                        k,
                    ) == self.chunk_element_bytes(
                        content->Some_0,
                        chunk_subset.element_indices(k),
                    )
            },
            r matches Err(ArrayError::CodecError(_)) ==> self.chunk_content(
                self.values(),
                chunk_indices@,
            ) is None,
    {
        if !self.is_chunk_in_grid(chunk_indices) {
            return Err(ArrayError::InvalidChunkGridIndicesError(copy_indices(chunk_indices)));
        }
        if !self.check_chunk_subset(chunk_subset) {
            return Err(ArrayError::InvalidArraySubset);
        }
        if self.codecs.bytes_to_bytes().len() == 0 && self.codecs.array_to_bytes().endian
            == crate::codec::Endianness::Little {
            return self.retrieve_chunk_subset_ranges(chunk_indices, chunk_subset);
        }
        let content = match self.retrieve_chunk(chunk_indices) {
            Ok(c) => c,
            Err(e) => return Err(e),
        };
        proof {
            self.lemma_chunk_content_len(self.values(), chunk_indices@);
        }
        self.gather(&content, chunk_subset)
    }
}

impl<TStorage: ReadableStorageTraits + WritableStorageTraits> Array<TStorage> {
    /// Writes `chunk_subset_bytes` to the elements of `chunk_subset`, a region given
    /// relative to chunk `chunk_indices`: the chunk is read (or taken as the fill value),
    /// updated and written back as one step.
    pub fn store_chunk_subset(
        &mut self,
        chunk_indices: &[u64],
        chunk_subset: &ArraySubset,
        chunk_subset_bytes: &[u8],
    ) -> (r: Result<(), ArrayError>)
        requires
            old(self).wf(),
            chunk_subset.wf(),
        ensures
            final(self).same_layout(old(self)),
            final(self).wf(),
            !old(self).chunk_in_grid(chunk_indices@) ==> (r matches Err(
                ArrayError::InvalidChunkGridIndicesError(v),
            ) && v@ == chunk_indices@),
            old(self).chunk_in_grid(chunk_indices@) && !old(self).inside_chunk(*chunk_subset)
                ==> r matches Err(ArrayError::InvalidArraySubset),
            r is Err ==> final(self).values() == old(self).values(),
            (r matches Err(ArrayError::TooLarge)) <==> old(self).chunk_in_grid(chunk_indices@)
                && old(self).inside_chunk(*chunk_subset) && chunk_subset.spec_num_elements()
                * old(self).element_size() > usize::MAX,
            old(self).chunk_in_grid(chunk_indices@) && old(self).inside_chunk(*chunk_subset)
                && chunk_subset.spec_num_elements() * old(self).element_size() <= usize::MAX
                && chunk_subset_bytes@.len() != chunk_subset.spec_num_elements()
                * old(self).element_size() ==> (r matches Err(
                ArrayError::InvalidBytesInputSize(got, expected),
            ) && got == chunk_subset_bytes@.len() && expected == chunk_subset.spec_num_elements()
                * old(self).element_size()),
            (r matches Err(ArrayError::CodecError(_))) ==> old(self).chunk_content(
                old(self).values(),
                chunk_indices@,
            ) is None || (exists|b: Seq<u8>|
                b.len() == old(self).chunk_num_bytes() && #[trigger] old(
                    self,
                ).spec_codecs().encoded(b, old(self).element_size()) is None),
            r is Err ==> (r matches Err(ArrayError::InvalidChunkGridIndicesError(_))) || (r matches Err(
                ArrayError::InvalidArraySubset,
            )) || (r matches Err(ArrayError::TooLarge)) || (r matches Err(
                ArrayError::InvalidBytesInputSize(_, _),
            )) || (r matches Err(ArrayError::CodecError(_))) || (r matches Err(
                ArrayError::StorageError(_),
            )),
            r is Ok ==> {
                let before = old(self).chunk_content(old(self).values(), chunk_indices@);
                let after = old(self).chunk_content(final(self).values(), chunk_indices@);
                &&& old(self).chunk_in_grid(chunk_indices@)
                &&& old(self).inside_chunk(*chunk_subset)
                &&& chunk_subset_bytes@.len() == chunk_subset.spec_num_elements()
                    * old(self).element_size()
                &&& before is Some
                &&& after is Some
                &&& old(self).chunk_stored(
                    old(self).values(),
                    final(self).values(),
                    chunk_indices@,
                    after->Some_0,
                )
                &&& old(self).chunk_subset_written(
                    before->Some_0,
                    after->Some_0,
                    *chunk_subset,
                    chunk_subset_bytes@,
                )
            },
    {
        if !self.is_chunk_in_grid(chunk_indices) {
            return Err(ArrayError::InvalidChunkGridIndicesError(copy_indices(chunk_indices)));
        }
        if !self.check_chunk_subset(chunk_subset) {
            return Err(ArrayError::InvalidArraySubset);
        }
        let total = match self.subset_byte_count(chunk_subset) {
            Some(t) => t,
            None => return Err(ArrayError::TooLarge),
        };
        proof {
            let m = chunk_subset.spec_num_elements();
            let e = self.element_size();
            lemma_num_elements_nonneg(chunk_subset.spec_shape());
            assert(m <= m * e) by (nonlinear_arith)
                requires
                    m >= 0,
                    e >= 1,
            ;
        }
        let n = match chunk_subset.num_elements() {
            Some(n) => n,
            None => return Err(ArrayError::TooLarge),
        };
        let es = self.data_type.size();
        proof {
            assert(n * es <= usize::MAX);
            assert(n <= n * es) by (nonlinear_arith)
                requires
                    n >= 0,
                    es >= 1,
            ;
        }
        if chunk_subset_bytes.len() != total {
            return Err(ArrayError::InvalidBytesInputSize(chunk_subset_bytes.len(), total as u64));
        }
        let previous = match self.retrieve_chunk(chunk_indices) {
            Ok(c) => c,
            Err(e) => return Err(e),
        };
        proof {
            self.lemma_chunk_content_len(self.values(), chunk_indices@);
        }
        let ghost cs = self.spec_chunk_shape();
        let mut content = copy_all(previous.as_slice());
        proof {
            assert forall|w: Seq<u64>| in_bounds(w, cs) implies #[trigger] self.chunk_element_bytes(
                content@,
                w,
            ) == if chunk_subset.spec_contains(w) && chunk_subset.position_of(w) < 0 {
                self.nth_element(chunk_subset_bytes@, chunk_subset.position_of(w))
            } else {
                self.chunk_element_bytes(previous@, w)
            } by {
                if chunk_subset.spec_contains(w) {
                    lemma_element_of_position(*chunk_subset, w);
                }
            }
        }
        let mut k: u64 = 0;
        while k < n
            invariant
                self.wf(),
                chunk_subset.wf(),
                self.inside_chunk(*chunk_subset),
                cs == self.spec_chunk_shape(),
                n == chunk_subset.spec_num_elements(),
                n <= usize::MAX,
                es == self.element_size(),
                n * es <= usize::MAX,
                chunk_subset_bytes@.len() == n * es,
                previous@.len() == self.chunk_num_bytes(),
                content@.len() == previous@.len(),
                k <= n,
                forall|w: Seq<u64>|
                    in_bounds(w, cs) ==> #[trigger] self.chunk_element_bytes(content@, w) == if chunk_subset.spec_contains(w)
                        && chunk_subset.position_of(w) < k {
                        self.nth_element(chunk_subset_bytes@, chunk_subset.position_of(w))
                    } else {
                        self.chunk_element_bytes(previous@, w)
                    },
            decreases n - k,
        {
            let o = self.locate_in_chunk(chunk_subset, k);
            let ghost wk = chunk_subset.element_indices(k as int);
            let ghost pre = content@;
            proof {
                lemma_element_ranges(o as int, o as int, num_elements(cs), es as int);
                lemma_element_ranges(k as int, k as int, n as int, es as int);
            }
            write_range(&mut content, o * es, chunk_subset_bytes, (k as usize) * es, es);
            proof {
                let value = self.nth_element(chunk_subset_bytes@, k as int);
                lemma_position_of_element(*chunk_subset, k as int);
                lemma_ravel_unravel(wk, cs);
                assert forall|w: Seq<u64>| in_bounds(w, cs) implies #[trigger] self.chunk_element_bytes(
                    content@,
                    w,
                ) == if chunk_subset.spec_contains(w) && chunk_subset.position_of(w) < k + 1 {
                    self.nth_element(chunk_subset_bytes@, chunk_subset.position_of(w))
                } else {
                    self.chunk_element_bytes(previous@, w)
                } by {
                    assert(self.chunk_element_bytes(pre, w) == if chunk_subset.spec_contains(w)
                        && chunk_subset.position_of(w) < k {
                        self.nth_element(chunk_subset_bytes@, chunk_subset.position_of(w))
                    } else {
                        self.chunk_element_bytes(previous@, w)
                    });
                    lemma_ravel_unravel(w, cs);
                    let ow = ravel(w, cs);
                    lemma_element_ranges(ow, o as int, num_elements(cs), es as int);
                    if chunk_subset.spec_contains(w) {
                        lemma_element_of_position(*chunk_subset, w);
                    }
                    if ow == o {
                        assert(w == wk);
                        assert(self.chunk_element_bytes(content@, w) =~= value);
                    } else {
                        assert(self.chunk_element_bytes(content@, w) =~= self.chunk_element_bytes(
                            pre,
                            w,
                        ));
                    }
                }
            }
            k = k + 1;
        }
        proof {
            assert forall|w: Seq<u64>| in_bounds(w, cs) implies #[trigger] self.chunk_element_bytes(
                content@,
                w,
            ) == if chunk_subset.spec_contains(w) {
                self.nth_element(chunk_subset_bytes@, chunk_subset.position_of(w))
            } else {
                self.chunk_element_bytes(previous@, w)
            } by {
                if chunk_subset.spec_contains(w) {
                    lemma_element_of_position(*chunk_subset, w);
                }
            }
        }
        match self.store_chunk(chunk_indices, content.as_slice()) {
            Ok(()) => {},
            Err(e) => return Err(e),
        }
        proof {
            lemma_same_layout(&*old(self), &*self);
        }
        Ok(())
    }
}

/// The shape, data type and fill value of an array or chunk.
#[derive(Debug, PartialEq, Eq)]
pub struct ArrayRepresentation {
    shape: Vec<u64>,
    data_type: DataType,
    fill_value: Vec<u8>,
}

impl ArrayRepresentation {
    #[verifier::type_invariant]
    spec fn well_typed(&self) -> bool {
        &&& self.data_type.valid()
        &&& self.fill_value@.len() == self.data_type.spec_size()
    }

    pub closed spec fn spec_shape(&self) -> Seq<u64> {
        self.shape@
    }

    pub closed spec fn spec_data_type(&self) -> DataType {
        self.data_type
    }

    pub closed spec fn spec_fill_value(&self) -> Seq<u8> {
        self.fill_value@
    }

    /// A representation; `None` where the data type is invalid or the fill value is not
    /// one element of it.
    pub fn new(shape: Vec<u64>, data_type: DataType, fill_value: Vec<u8>) -> (r: Option<
        ArrayRepresentation,
    >)
        ensures
            r is Some <==> data_type.valid() && fill_value@.len() == data_type.spec_size(),
            r matches Some(a) ==> a.spec_shape() == shape@ && a.spec_data_type() == data_type
                && a.spec_fill_value() == fill_value@,
    {
        let valid = match data_type {
            DataType::RawBits(bits) => bits > 0 && bits % 8 == 0,
            _ => true,
        };
        if valid && fill_value.len() == data_type.size() {
            Some(ArrayRepresentation { shape, data_type, fill_value })
        } else {
            None
        }
    }

    pub fn shape(&self) -> (r: &Vec<u64>)
        ensures
            r@ == self.spec_shape(),
    {
        &self.shape
    }

    pub fn data_type(&self) -> (r: DataType)
        ensures
            r == self.spec_data_type(),
    {
        self.data_type
    }

    pub fn fill_value(&self) -> (r: &Vec<u8>)
        ensures
            r@ == self.spec_fill_value(),
    {
        &self.fill_value
    }

    pub fn element_size(&self) -> (r: usize)
        ensures
            r == self.spec_data_type().spec_size(),
    {
        self.data_type.size()
    }

    /// The number of elements, or `None` where it exceeds `u64::MAX`.
    pub fn num_elements(&self) -> (r: Option<u64>)
        ensures
            r matches Some(n) ==> n == num_elements(self.spec_shape()),
            r is None <==> num_elements(self.spec_shape()) > u64::MAX,
    {
        crate::indices::checked_num_elements(self.shape.as_slice())
    }

    /// The size in bytes, or `None` where it exceeds `u64::MAX`.
    pub fn size(&self) -> (r: Option<u64>)
        ensures
            r matches Some(n) ==> n == num_elements(self.spec_shape())
                * self.spec_data_type().spec_size(),
            r is None <==> num_elements(self.spec_shape()) * self.spec_data_type().spec_size()
                > u64::MAX,
    {
        let es = self.data_type.size() as u64;
        proof {
            lemma_num_elements_nonneg(self.spec_shape());
            use_type_invariant(self);
        }
        match crate::indices::checked_num_elements(self.shape.as_slice()) {
            Some(n) => {
                if es != 0 && n > u64::MAX / es {
                    proof {
                        assert(n * es > u64::MAX) by (nonlinear_arith)
                            requires
                                n > u64::MAX / es,
                                es >= 1,
                        ;
                    }
                    None
                } else {
                    proof {
                        assert(n * es <= u64::MAX) by (nonlinear_arith)
                            requires
                                es == 0 || n <= u64::MAX / es,
                        ;
                    }
                    Some(n * es)
                }
            },
            None => {
                proof {
                    let m = num_elements(self.spec_shape());
                    assert(es >= 1);
                    assert(m * es > u64::MAX) by (nonlinear_arith)
                        requires
                            m > u64::MAX,
                            es >= 1,
                    ;
                }
                None
            },
        }
    }
}

impl<TStorage: ReadableStorageTraits> Array<TStorage> {
    /// The shape, data type and fill value of chunk `chunk_indices`.
    pub fn chunk_array_representation(&self, chunk_indices: &[u64]) -> (r: Result<
        ArrayRepresentation,
        ArrayError,
    >)
        requires
            self.wf(),
        ensures
            r is Ok <==> self.chunk_in_grid(chunk_indices@),
            r is Err ==> (r matches Err(ArrayError::InvalidChunkGridIndicesError(v)) && v@
                == chunk_indices@),
            r matches Ok(a) ==> a.spec_shape() == self.spec_chunk_shape() && a.spec_data_type()
                == self.spec_data_type() && a.spec_fill_value() == self.spec_fill_value(),
    {
        let shape = match self.chunk_shape(chunk_indices) {
            Ok(s) => s,
            Err(e) => return Err(e),
        };
        let valid = match self.data_type {
            DataType::RawBits(bits) => bits > 0 && bits % 8 == 0,
            _ => true,
        };
        assert(valid);
        match ArrayRepresentation::new(shape, self.data_type, copy_all(self.fill_value.as_slice())) {
            Some(a) => Ok(a),
            None => Err(ArrayError::InvalidChunkGridIndicesError(copy_indices(chunk_indices))),
        }
    }

    /// The chunks that `subset` touches, as a region of the chunk grid: from the chunk of
    /// its first element to that of its last. `None` for an empty subset or one that
    /// reaches outside the array.
    pub fn chunks_in_array_subset(&self, subset: &ArraySubset) -> (r: Result<
        Option<ArraySubset>,
        IncompatibleDimensionalityError,
    >)
        requires
            self.wf(),
            subset.wf(),
        ensures
            r is Err <==> subset.spec_start().len() != self.spec_shape().len(),
            r matches Ok(o) ==> (o is Some <==> self.subset_inside(*subset) && all_positive(
                subset.spec_shape(),
            )),
            r matches Ok(Some(c)) ==> c.wf() && c.spec_start() == chunk_of(
                subset.spec_start(),
                self.spec_chunk_shape(),
            ) && c.spec_shape().len() == subset.spec_start().len() && (forall|d: int|
                0 <= d < c.spec_shape().len() ==> #[trigger] c.spec_start()[d] + c.spec_shape()[d]
                    - 1 == (subset.spec_start()[d] + subset.spec_shape()[d] - 1)
                    / (self.spec_chunk_shape()[d] as int)),
    {
        let n = self.shape.len();
        if subset.dimensionality() != n {
            return Err(
                IncompatibleDimensionalityError { got: subset.dimensionality(), expected: n },
            );
        }
        match self.check_subset(subset) {
            Ok(()) => {},
            Err(_) => return Ok(None),
        }
        let last = match subset.end_inc() {
            Some(e) => e,
            None => return Ok(None),
        };
        let first = subset.start();
        let cs = self.chunk_grid.chunk_shape();
        let mut start: Vec<u64> = Vec::new();
        let mut shape: Vec<u64> = Vec::new();
        let mut d: usize = 0;
        while d < n
            invariant
                self.wf(),
                subset.wf(),
                self.subset_inside(*subset),
                n == self.spec_shape().len(),
                first@ == subset.spec_start(),
                cs@ == self.spec_chunk_shape(),
                last@ == Seq::new(
                    subset.spec_start().len(),
                    |e: int| (subset.spec_start()[e] + subset.spec_shape()[e] - 1) as u64,
                ),
                all_positive(subset.spec_shape()),
                d <= n,
                start@.len() == d,
                shape@.len() == d,
                forall|e: int|
                    0 <= e < d ==> #[trigger] start@[e] == (subset.spec_start()[e] as int) / (
                    cs@[e] as int),
                forall|e: int|
                    0 <= e < d ==> #[trigger] start@[e] + shape@[e] - 1 == (subset.spec_start()[e]
                        + subset.spec_shape()[e] - 1) / (cs@[e] as int) && start@[e] + shape@[e]
                        <= u64::MAX,
            decreases n - d,
        {
            let c = cs[d];
            assert(c > 0);
            assert(subset.spec_shape()[d as int] > 0);
            let a = first[d] / c;
            let b = last[d] / c;
            proof {
                vstd::arithmetic::div_mod::lemma_div_is_ordered(
                    first@[d as int] as int,
                    last@[d as int] as int,
                    c as int,
                );
                vstd::arithmetic::div_mod::lemma_div_is_ordered_by_denominator(
                    last@[d as int] as int,
                    1,
                    c as int,
                );
            }
            start.push(a);
            shape.push(b - a + 1);
            d = d + 1;
        }
        proof {
            assert(start@ =~= chunk_of(subset.spec_start(), cs@));
        }
        match ArraySubset::new_with_start_shape(start, shape) {
            Ok(s) => Ok(Some(s)),
            Err(_) => Ok(None),
        }
    }
}

/// Builds array metadata, and from it an array.
#[derive(Debug, Clone)]
pub struct ArrayBuilder {
    metadata: ArrayMetadataV3,
}

impl ArrayBuilder {
    pub closed spec fn spec_metadata(&self) -> ArrayMetadataV3 {
        self.metadata
    }

    /// A builder for an array of `shape` and `data_type`, in chunks of `chunk_shape`,
    /// filled with `fill_value`; its codecs are the little-endian `bytes` codec alone, its
    /// keys use the default encoding.
    pub fn new(shape: Vec<u64>, data_type: DataType, chunk_shape: Vec<u64>, fill_value: Vec<u8>) -> (r:
        ArrayBuilder)
        ensures
            r.spec_metadata().zarr_format == 3,
            r.spec_metadata().node_type@ == "array"@,
            r.spec_metadata().shape@ == shape@,
            r.spec_metadata().data_type == data_type,
            r.spec_metadata().chunk_grid@ == chunk_shape@,
            r.spec_metadata().fill_value@ == fill_value@,
            r.spec_metadata().codecs@ == seq![
                Codec::ArrayToBytes(crate::codec::BytesCodec { endian: crate::codec::Endianness::Little }),
            ],
            r.spec_metadata().additional_fields@.len() == 0,
            r.spec_metadata().dimension_names is None,
    {
        let mut codecs: Vec<Codec> = Vec::new();
        codecs.push(
            Codec::ArrayToBytes(crate::codec::BytesCodec { endian: crate::codec::Endianness::Little }),
        );
        proof {
            reveal_strlit("array");
        }
        ArrayBuilder {
            metadata: ArrayMetadataV3 {
                zarr_format: 3,
                node_type: String::from_str("array"),
                shape,
                data_type,
                chunk_grid: chunk_shape,
                chunk_key_encoding: ChunkKeyEncoding::new_default(),
                fill_value,
                codecs,
                attributes: String::from_str("{}"),
                storage_transformers: Vec::new(),
                dimension_names: None,
                additional_fields: Vec::new(),
            },
        }
    }

    /// A builder with the metadata of `array`.
    pub fn from_metadata(metadata: ArrayMetadataV3) -> (r: ArrayBuilder)
        ensures
            r.spec_metadata() == metadata,
    {
        ArrayBuilder { metadata }
    }

    /// Sets the codecs that follow the array-to-bytes codec.
    pub fn bytes_to_bytes_codecs(&mut self, codecs: Vec<crate::codec::BytesToBytesCodec>)
        ensures
            final(self).spec_metadata().codecs@.len() == codecs@.len() + 1,
            final(self).spec_metadata().codecs@[0] == Codec::ArrayToBytes(
                crate::codec::BytesCodec { endian: crate::codec::Endianness::Little },
            ) || final(self).spec_metadata().codecs@[0] == old(self).spec_metadata().codecs@[0],
            forall|i: int|
                0 <= i < codecs@.len() ==> final(self).spec_metadata().codecs@[i + 1]
                    == Codec::BytesToBytes(#[trigger] codecs@[i]),
    {
        let first = if self.metadata.codecs.len() > 0 {
            self.metadata.codecs[0]
        } else {
            Codec::ArrayToBytes(crate::codec::BytesCodec { endian: crate::codec::Endianness::Little })
        };
        let mut all: Vec<Codec> = Vec::new();
        all.push(first);
        let mut i: usize = 0;
        while i < codecs.len()
            invariant
                i <= codecs@.len(),
                all@.len() == i + 1,
                all@[0] == first,
                forall|j: int| 0 <= j < i ==> all@[j + 1] == Codec::BytesToBytes(#[trigger] codecs@[j]),
            decreases codecs@.len() - i,
        {
            all.push(Codec::BytesToBytes(codecs[i]));
            i = i + 1;
        }
        self.metadata.codecs = all;
    }

    /// Sets the chunk key encoding.
    pub fn chunk_key_encoding(&mut self, encoding: ChunkKeyEncoding)
        ensures
            final(self).spec_metadata() == (ArrayMetadataV3 {
                chunk_key_encoding: encoding,
                ..old(self).spec_metadata()
            }),
    {
        self.metadata.chunk_key_encoding = encoding;
    }

    /// Sets the dimension names.
    pub fn dimension_names(&mut self, names: Option<Vec<Option<String>>>)
        ensures
            final(self).spec_metadata() == (ArrayMetadataV3 {
                dimension_names: names,
                ..old(self).spec_metadata()
            }),
    {
        self.metadata.dimension_names = names;
    }

    /// Sets the attributes, given as JSON text.
    pub fn attributes(&mut self, attributes: String)
        ensures
            final(self).spec_metadata() == (ArrayMetadataV3 {
                attributes: attributes,
                ..old(self).spec_metadata()
            }),
    {
        self.metadata.attributes = attributes;
    }

    /// The metadata built so far.
    pub fn metadata(&self) -> (r: &ArrayMetadataV3)
        ensures
            *r == self.spec_metadata(),
    {
        &self.metadata
    }

    /// The array at `path` in `storage` with the metadata built so far.
    pub fn build<TStorage: ReadableStorageTraits>(self, storage: TStorage, path: &str) -> (r: Result<
        Array<TStorage>,
        ArrayCreateError,
    >)
        ensures
            r is Ok <==> valid_metadata(path@, self.spec_metadata()),
            r matches Ok(a) ==> a.wf() && a.describes(self.spec_metadata()) && a.values()
                == storage.values(),
    {
        Array::new_with_metadata(storage, path, self.metadata)
    }
}

impl<TStorage: ReadableStorageTraits> Array<TStorage> {
    /// A builder with this array's metadata.
    pub fn builder(&self) -> (r: ArrayBuilder)
        requires
            self.wf(),
        ensures
            self.describes(r.spec_metadata()),
    {
        ArrayBuilder::from_metadata(self.metadata())
    }
}

impl<TStorage: ReadableStorageTraits> Array<TStorage> {
    /// `retrieve_chunk_subset` for a chunk stored without compressors in little-endian
    /// order: the element bytes are read from the store by byte range, not decoded whole.
    fn retrieve_chunk_subset_ranges(&self, chunk_indices: &[u64], chunk_subset: &ArraySubset) -> (r:
        Result<Vec<u8>, ArrayError>)
        requires
            self.wf(),
            chunk_subset.wf(),
            self.chunk_in_grid(chunk_indices@),
            self.inside_chunk(*chunk_subset),
            self.spec_codecs().spec_bytes_to_bytes().len() == 0,
            self.spec_codecs().spec_array_to_bytes().endian == crate::codec::Endianness::Little,
        ensures
            r matches Ok(out) ==> {
                let content = self.chunk_content(self.values(), chunk_indices@);
                &&& content is Some
                &&& out@.len() == chunk_subset.spec_num_elements() * self.element_size()
                &&& forall|k: int|
                    0 <= k < chunk_subset.spec_num_elements() ==> #[trigger] self.nth_element(
                        out@,
                        k,
                    ) == self.chunk_element_bytes(
                        content->Some_0,
                        chunk_subset.element_indices(k),
                    )
            },
            r matches Err(ArrayError::CodecError(_)) ==> self.chunk_content(
                self.values(),
                chunk_indices@,
            ) is None,
    {
        let key = self.chunk_key_of(chunk_indices);
        let stored_size = match self.storage.size_key(&key) {
            Ok(s) => s,
            Err(e) => return Err(ArrayError::StorageError(e)),
        };
        let size = self.chunk_size_bytes();
        let es = self.data_type.size();
        let ghost stages: Seq<crate::codec::BytesToBytesCodec> = self.spec_codecs().spec_bytes_to_bytes();
        match stored_size {
            None => {
                let content = self.fill_chunk_bytes();
                proof {
                    lemma_num_elements_nonneg(self.spec_chunk_shape());
                    lemma_repeat_len(
                        self.spec_fill_value(),
                        num_elements(self.spec_chunk_shape()) as nat,
                    );
                }
                return self.gather(&content, chunk_subset);
            },
            Some(n) => {
                if n != size as u64 {
                    proof {
                        assert(stages =~= Seq::<crate::codec::BytesToBytesCodec>::empty());
                    }
                    return Err(
                        ArrayError::CodecError(CodecError::UnexpectedChunkDecodedSize(size as u64, n)),
                    );
                }
            },
        }
        let count = match chunk_subset.num_elements() {
            Some(c) => c,
            None => return Err(ArrayError::TooLarge),
        };
        if count > (usize::MAX / es) as u64 {
            return Err(ArrayError::TooLarge);
        }
        let mut ranges: Vec<crate::bytes::ByteRange> = Vec::new();
        let mut offsets: Vec<usize> = Vec::new();
        let mut k: u64 = 0;
        while k < count
            invariant
                self.wf(),
                chunk_subset.wf(),
                self.inside_chunk(*chunk_subset),
                count == chunk_subset.spec_num_elements(),
                es == self.element_size(),
                k <= count,
                ranges@.len() == k,
                offsets@.len() == k,
                forall|j: int|
                    0 <= j < k ==> #[trigger] offsets@[j] == ravel(
                        chunk_subset.element_indices(j),
                        self.spec_chunk_shape(),
                    ) && offsets@[j] < num_elements(self.spec_chunk_shape()) && ranges@[j]
                        == crate::bytes::ByteRange::FromStart(
                        (offsets@[j] * es) as u64,
                        Some(es as u64),
                    ),
            decreases count - k,
        {
            let o = self.locate_in_chunk(chunk_subset, k);
            proof {
                lemma_element_ranges(
                    o as int,
                    o as int,
                    num_elements(self.spec_chunk_shape()),
                    es as int,
                );
            }
            ranges.push(crate::bytes::ByteRange::FromStart((o * es) as u64, Some(es as u64)));
            offsets.push(o);
            k = k + 1;
        }
        let parts = match self.storage.get_partial_values_key(&key, ranges.as_slice()) {
            Ok(Some(p)) => p,
            Ok(None) => return Err(ArrayError::StorageError(StorageError::UnknownKeySize(key))),
            Err(e) => return Err(ArrayError::StorageError(e)),
        };
        let ghost stored = self.values()[key@];
        proof {
            assert(stages =~= Seq::<crate::codec::BytesToBytesCodec>::empty());
            assert(self.chunk_content(self.values(), chunk_indices@) == Some(stored));
        }
        let mut out: Vec<u8> = Vec::new();
        let mut j: usize = 0;
        while j < parts.len()
            invariant
                self.wf(),
                chunk_subset.wf(),
                count == chunk_subset.spec_num_elements(),
                es == self.element_size(),
                parts@.len() == count,
                stored.len() == self.chunk_num_bytes(),
                crate::bytes::slices_of(parts@, stored, ranges@),
                ranges@.len() == count,
                offsets@.len() == count,
                forall|i: int|
                    0 <= i < count ==> #[trigger] offsets@[i] == ravel(
                        chunk_subset.element_indices(i),
                        self.spec_chunk_shape(),
                    ) && offsets@[i] < num_elements(self.spec_chunk_shape()) && ranges@[i]
                        == crate::bytes::ByteRange::FromStart(
                        (offsets@[i] * es) as u64,
                        Some(es as u64),
                    ),
                j <= count,
                out@.len() == j * es,
                forall|i: int|
                    0 <= i < j ==> #[trigger] self.nth_element(out@, i) == self.chunk_element_bytes(
                        stored,
                        chunk_subset.element_indices(i),
                    ),
            decreases count - j,
        {
            let ghost before = out@;
            let part = &parts[j];
            proof {
                let o = offsets@[j as int] as int;
                lemma_element_ranges(o, o, num_elements(self.spec_chunk_shape()), es as int);
                assert(part@ == crate::bytes::range_slice(stored, ranges@[j as int]));
                assert(part@ == stored.subrange(o * es, o * es + es));
            }
            let mut b: usize = 0;
            while b < part.len()
                invariant
                    b <= part@.len(),
                    out@ == before + part@.subrange(0, b as int),
                decreases part@.len() - b,
            {
                out.push(part[b]);
                proof {
                    assert(out@ =~= before + part@.subrange(0, b + 1));
                }
                b = b + 1;
            }
            proof {
                assert(part@.subrange(0, part@.len() as int) =~= part@);
                assert(self.nth_element(out@, j as int) =~= part@);
                assert forall|i: int| 0 <= i < j + 1 implies #[trigger] self.nth_element(out@, i)
                    == self.chunk_element_bytes(stored, chunk_subset.element_indices(i)) by {
                    if i < j {
                        lemma_element_step(i, j as int, es as int);
                        assert(self.nth_element(out@, i) =~= self.nth_element(before, i));
                    }
                }
                assert(out@.len() == (j + 1) * es) by (nonlinear_arith)
                    requires
                        out@.len() == j * es + es,
                ;
            }
            j = j + 1;
        }
        Ok(out)
    }

    /// The bytes of the elements of `chunk_subset` in chunk bytes `content`.
    fn gather(&self, content: &Vec<u8>, chunk_subset: &ArraySubset) -> (r: Result<Vec<u8>, ArrayError>)
        requires
            self.wf(),
            chunk_subset.wf(),
            self.inside_chunk(*chunk_subset),
            content@.len() == self.chunk_num_bytes(),
        ensures
            r matches Ok(out) ==> out@.len() == chunk_subset.spec_num_elements() * self.element_size()
                && forall|k: int|
                0 <= k < chunk_subset.spec_num_elements() ==> #[trigger] self.nth_element(out@, k)
                    == self.chunk_element_bytes(content@, chunk_subset.element_indices(k)),
            r is Err ==> r matches Err(ArrayError::TooLarge),
    {
        let n = match chunk_subset.num_elements() {
            Some(n) => n,
            None => return Err(ArrayError::TooLarge),
        };
        let es = self.data_type.size();
        if n > (usize::MAX / es) as u64 {
            return Err(ArrayError::TooLarge);
        }
        let mut out: Vec<u8> = Vec::new();
        let mut k: u64 = 0;
        while k < n
            invariant
                self.wf(),
                chunk_subset.wf(),
                self.inside_chunk(*chunk_subset),
                n == chunk_subset.spec_num_elements(),
                es == self.element_size(),
                content@.len() == self.chunk_num_bytes(),
                k <= n,
                out@.len() == k * es,
                forall|j: int|
                    0 <= j < k ==> #[trigger] self.nth_element(out@, j) == self.chunk_element_bytes(
                        content@,
                        chunk_subset.element_indices(j),
                    ),
            decreases n - k,
        {
            let o = self.locate_in_chunk(chunk_subset, k);
            proof {
                lemma_element_ranges(
                    o as int,
                    o as int,
                    num_elements(self.spec_chunk_shape()),
                    es as int,
                );
            }
            let ghost before = out@;
            append_range(&mut out, content.as_slice(), o * es, o * es + es);
            proof {
                assert(self.nth_element(out@, k as int) =~= content@.subrange(
                    o * es,
                    o * es + es,
                ));
                assert forall|j: int| 0 <= j < k + 1 implies #[trigger] self.nth_element(out@, j)
                    == self.chunk_element_bytes(content@, chunk_subset.element_indices(j)) by {
                    if j < k {
                        lemma_element_step(j, k as int, es as int);
                        assert(self.nth_element(out@, j) =~= self.nth_element(before, j));
                    }
                }
                assert(out@.len() == (k + 1) * es) by (nonlinear_arith)
                    requires
                        out@.len() == k * es + es,
                ;
            }
            k = k + 1;
        }
        Ok(out)
    }
}

/// Where chunk `chunk` is in `chunks`: the last index that holds it, or -1.
pub open spec fn find_chunk(chunks: Seq<Vec<u64>>, chunk: Seq<u64>) -> int
    decreases chunks.len(),
{
    if chunks.len() == 0 {
        -1
    } else if chunks.last()@ == chunk {
        chunks.len() - 1
    } else {
        find_chunk(chunks.drop_last(), chunk)
    }
}

proof fn lemma_find_chunk_bounds(chunks: Seq<Vec<u64>>, chunk: Seq<u64>)
    ensures
        -1 <= find_chunk(chunks, chunk) < chunks.len(),
        find_chunk(chunks, chunk) >= 0 ==> chunks[find_chunk(chunks, chunk)]@ == chunk,
        find_chunk(chunks, chunk) == -1 ==> forall|j: int|
            0 <= j < chunks.len() ==> (#[trigger] chunks[j])@ != chunk,
    decreases chunks.len(),
{
    if chunks.len() > 0 && chunks.last()@ != chunk {
        lemma_find_chunk_bounds(chunks.drop_last(), chunk);
        let f = find_chunk(chunks.drop_last(), chunk);
        if f >= 0 {
            assert(chunks.drop_last()[f] == chunks[f]);
        }
        assert forall|j: int| 0 <= j < chunks.len() && find_chunk(chunks, chunk) == -1 implies (
        #[trigger] chunks[j])@ != chunk by {
            if j < chunks.len() - 1 {
                assert(chunks.drop_last()[j] == chunks[j]);
            }
        }
    }
}

/// The index of chunk `chunk` in `chunks`, the last where there are several.
fn find_cached(chunks: &Vec<Vec<u64>>, chunk: &Vec<u64>) -> (r: Option<usize>)
    ensures
        r matches Some(i) ==> i == find_chunk(chunks@, chunk@),
        r is None ==> find_chunk(chunks@, chunk@) == -1,
{
    let mut i: usize = chunks.len();
    proof {
        assert(chunks@.subrange(0, i as int) =~= chunks@);
    }
    while i > 0
        invariant
            i <= chunks@.len(),
            find_chunk(chunks@, chunk@) == find_chunk(chunks@.subrange(0, i as int), chunk@),
        decreases i,
    {
        proof {
            assert(chunks@.subrange(0, i as int).drop_last() =~= chunks@.subrange(0, i - 1));
        }
        if same_indices(&chunks[i - 1], chunk) {
            return Some(i - 1);
        }
        i = i - 1;
    }
    None
}

impl<TStorage: ReadableStorageTraits> Array<TStorage> {
    /// Whether every element of the array that lies in chunk `chunk_indices` lies in
    /// `subset`: the subset covers the chunk, so the chunk need not be read to update it.
    fn chunk_covered(&self, chunk_indices: &[u64], subset: &ArraySubset) -> (r: bool)
        requires
            self.wf(),
            subset.wf(),
            self.subset_inside(*subset),
            self.chunk_in_grid(chunk_indices@),
        ensures
            r ==> forall|idx: Seq<u64>|
                in_bounds(idx, self.spec_shape()) && chunk_of(idx, self.spec_chunk_shape())
                    == chunk_indices@ ==> #[trigger] subset.spec_contains(idx),
    {
        let bounded = match self.chunk_subset_bounded(chunk_indices) {
            Ok(b) => b,
            Err(_) => return false,
        };
        let n = self.shape.len();
        let bs = bounded.start();
        let be = bounded.shape();
        let ss = subset.start();
        let se = subset.shape();
        if bs.len() != n {
            return false;
        }
        let mut d: usize = 0;
        while d < n
            invariant
                bounded.wf(),
                subset.wf(),
                self.subset_inside(*subset),
                n == self.spec_shape().len(),
                bs@ == bounded.spec_start(),
                be@ == bounded.spec_shape(),
                ss@ == subset.spec_start(),
                se@ == subset.spec_shape(),
                bs@.len() == n,
                d <= n,
                forall|e: int|
                    0 <= e < d ==> #[trigger] bs@[e] >= ss@[e] && bs@[e] + be@[e] <= ss@[e]
                        + se@[e],
            decreases n - d,
        {
            if bs[d] < ss[d] || bs[d] + be[d] > ss[d] + se[d] {
                return false;
            }
            d = d + 1;
        }
        proof {
            assert forall|idx: Seq<u64>|
                in_bounds(idx, self.spec_shape()) && chunk_of(idx, self.spec_chunk_shape())
                    == chunk_indices@ implies #[trigger] subset.spec_contains(idx) by {
                assert(bounded.spec_contains(idx));
                assert forall|e: int| 0 <= e < n implies subset.spec_start()[e] <= #[trigger] idx[e]
                    < subset.spec_start()[e] + subset.spec_shape()[e] by {
                    assert(bounded.spec_start()[e] <= idx[e] < bounded.spec_start()[e]
                        + bounded.spec_shape()[e]);
                }
            }
        }
        true
    }

    /// The chunks held in memory have the array's rank, lie in the grid, have a chunk's
    /// size, and are held once each.
    pub open spec fn cache_wf(&self, chunks: Seq<Vec<u64>>, buffers: Seq<Vec<u8>>) -> bool {
        &&& chunks.len() == buffers.len()
        &&& forall|j: int|
            0 <= j < chunks.len() ==> (#[trigger] chunks[j])@.len() == self.spec_shape().len()
                && self.chunk_in_grid(chunks[j]@) && buffers[j]@.len() == self.chunk_num_bytes()
        &&& forall|a: int, b: int|
            0 <= a < b < chunks.len() ==> #[trigger] chunks[a]@ != #[trigger] chunks[b]@
    }

    /// The bytes of chunk `chunk`, where `buffers` hold the chunks `chunks` in memory.
    pub open spec fn cached_content(
        &self,
        values: Map<Seq<char>, Seq<u8>>,
        chunks: Seq<Vec<u64>>,
        buffers: Seq<Vec<u8>>,
        chunk: Seq<u64>,
    ) -> Option<Seq<u8>> {
        let i = find_chunk(chunks, chunk);
        if i >= 0 {
            Some(buffers[i]@)
        } else {
            self.chunk_content(values, chunk)
        }
    }

    /// The bytes of the element at `indices`, where `buffers` hold the chunks `chunks`.
    pub open spec fn cached_element(
        &self,
        values: Map<Seq<char>, Seq<u8>>,
        chunks: Seq<Vec<u64>>,
        buffers: Seq<Vec<u8>>,
        indices: Seq<u64>,
    ) -> Option<Seq<u8>> {
        match self.cached_content(values, chunks, buffers, chunk_of(indices, self.spec_chunk_shape())) {
            Some(content) => Some(self.element_of(content, indices)),
            None => None,
        }
    }
}

} // verus!
