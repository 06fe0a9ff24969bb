//! Stores: keys, prefixes, node paths, the store interface and an in-memory store.
use crate::bytes::{copy_all, extract_byte_ranges, slices_of, ByteRange, ranges_valid};
use crate::chunk_key_encoding::{encoded_key, push_char, ChunkKeyEncoding};
use vstd::hash_map::StringHashMap;
use vstd::prelude::*;
use vstd::string::{StrSliceExecFns, StringExecFns};

verus! {

/// A store key: non-empty, `/`-separated components, none of them empty.
pub open spec fn valid_key(s: Seq<char>) -> bool {
    &&& s.len() > 0
    &&& s[0] != '/'
    &&& s[s.len() - 1] != '/'
    &&& forall|i: int| 0 <= i < s.len() - 1 ==> !(#[trigger] s[i] == '/' && s[i + 1] == '/')
}

/// A node path: `/`, or `/` followed by `/`-separated non-empty names.
pub open spec fn valid_node_path(s: Seq<char>) -> bool {
    &&& s.len() > 0
    &&& s[0] == '/'
    &&& (s.len() == 1 || valid_key(s.drop_first()))
}

/// A store prefix: empty (the root), or a key followed by `/`.
pub open spec fn valid_prefix(s: Seq<char>) -> bool {
    s.len() == 0 || (s[s.len() - 1] == '/' && valid_key(s.drop_last()))
}

/// Why a key is refused.
#[derive(Debug, Clone, PartialEq, Eq)]
pub struct StoreKeyError(pub String);

/// Why a prefix is refused.
#[derive(Debug, Clone, PartialEq, Eq)]
pub struct StorePrefixError(pub String);

/// Why a node path is refused.
#[derive(Debug, Clone, PartialEq, Eq)]
pub struct NodePathError(pub String);

fn keep(s: &str) -> (r: String)
    ensures
        r@ == s@,
{
    String::from_str(s)
}

/// Whether `s` is a valid store key.
pub fn is_valid_key(s: &str) -> (r: bool)
    ensures
        r == valid_key(s@),
{
    let n = s.unicode_len();
    if n == 0 {
        return false;
    }
    if s.get_char(0) == '/' || s.get_char(n - 1) == '/' {
        return false;
    }
    let mut i: usize = 0;
    while i + 1 < n
        invariant
            n == s@.len(),
            n > 0,
            i < n,
            forall|j: int| 0 <= j < i ==> !(#[trigger] s@[j] == '/' && s@[j + 1] == '/'),
        decreases n - i,
    {
        if s.get_char(i) == '/' && s.get_char(i + 1) == '/' {
            return false;
        }
        i = i + 1;
    }
    true
}

/// The key of a value in a store.
#[derive(Debug, Clone, PartialEq, Eq, Hash)]
pub struct StoreKey {
    key: String,
}

impl View for StoreKey {
    type V = Seq<char>;

    closed spec fn view(&self) -> Seq<char> {
        self.key@
    }
}

impl StoreKey {
    pub closed spec fn wf(&self) -> bool {
        valid_key(self.key@)
    }

    /// The key `key`, if it is a valid key.
    pub fn new(key: &str) -> (r: Result<StoreKey, StoreKeyError>)
        ensures
            r is Ok <==> valid_key(key@),
            r matches Ok(k) ==> k@ == key@,
    {
        if is_valid_key(key) {
            Ok(StoreKey { key: keep(key) })
        } else {
            Err(StoreKeyError(keep(key)))
        }
    }

    pub fn as_str(&self) -> (r: &str)
        ensures
            r@ == self@,
    {
        self.key.as_str()
    }
}

/// A prefix of store keys.
#[derive(Debug, Clone, PartialEq, Eq, Hash)]
pub struct StorePrefix {
    prefix: String,
}

impl View for StorePrefix {
    type V = Seq<char>;

    closed spec fn view(&self) -> Seq<char> {
        self.prefix@
    }
}

impl StorePrefix {
    /// The prefix `prefix`, if it is empty or a valid key followed by `/`.
    pub fn new(prefix: &str) -> (r: Result<StorePrefix, StorePrefixError>)
        ensures
            r is Ok <==> valid_prefix(prefix@),
            r matches Ok(p) ==> p@ == prefix@,
    {
        let n = prefix.unicode_len();
        if n == 0 {
            return Ok(StorePrefix { prefix: String::new() });
        }
        if prefix.get_char(n - 1) != '/' {
            return Err(StorePrefixError(keep(prefix)));
        }
        let body = prefix.substring_char(0, n - 1);
        proof {
            assert(body@ =~= prefix@.drop_last());
        }
        if is_valid_key(body) {
            Ok(StorePrefix { prefix: keep(prefix) })
        } else {
            Err(StorePrefixError(keep(prefix)))
        }
    }

    /// The root prefix, which holds every key.
    pub fn root() -> (r: StorePrefix)
        ensures
            r@ == Seq::<char>::empty(),
    {
        StorePrefix { prefix: String::new() }
    }

    pub fn as_str(&self) -> (r: &str)
        ensures
            r@ == self@,
    {
        self.prefix.as_str()
    }
}

/// The path of a node (group or array) in a hierarchy.
#[derive(Debug, Clone, PartialEq, Eq, Hash)]
pub struct NodePath {
    path: String,
}

impl View for NodePath {
    type V = Seq<char>;

    closed spec fn view(&self) -> Seq<char> {
        self.path@
    }
}

impl NodePath {
    pub closed spec fn wf(&self) -> bool {
        valid_node_path(self.path@)
    }

    /// The path `path`, if it is `/` or `/` followed by a valid key.
    pub fn new(path: &str) -> (r: Result<NodePath, NodePathError>)
        ensures
            r is Ok <==> valid_node_path(path@),
            r matches Ok(p) ==> p@ == path@ && p.wf(),
    {
        let n = path.unicode_len();
        if n == 0 || path.get_char(0) != '/' {
            return Err(NodePathError(keep(path)));
        }
        if n == 1 {
            return Ok(NodePath { path: keep(path) });
        }
        let rest = path.substring_char(1, n);
        proof {
            assert(rest@ =~= path@.drop_first());
        }
        if is_valid_key(rest) {
            Ok(NodePath { path: keep(path) })
        } else {
            Err(NodePathError(keep(path)))
        }
    }

    /// The root path, `/`.
    pub fn root() -> (r: NodePath)
        ensures
            r@ == seq!['/'],
            r.wf(),
    {
        let mut path = String::new();
        push_char(&mut path, '/');
        NodePath { path }
    }

    pub fn as_str(&self) -> (r: &str)
        ensures
            r@ == self@,
    {
        self.path.as_str()
    }
}

/// A [`StoreKey`] and a [`ByteRange`] of its value.
#[derive(Debug, Clone)]
pub struct StoreKeyRange {
    pub key: StoreKey,
    pub byte_range: ByteRange,
}

impl StoreKeyRange {
    pub fn new(key: StoreKey, byte_range: ByteRange) -> (r: StoreKeyRange)
        ensures
            r.key == key,
            r.byte_range == byte_range,
    {
        StoreKeyRange { key, byte_range }
    }
}

/// A [`StoreKey`], an offset in its value, and bytes to write there.
#[derive(Debug)]
pub struct StoreKeyStartValue<'a> {
    pub key: StoreKey,
    pub start: u64,
    pub value: &'a [u8],
}

impl<'a> StoreKeyStartValue<'a> {
    pub fn new(key: StoreKey, start: u64, value: &'a [u8]) -> (r: StoreKeyStartValue<'a>)
        ensures
            r.key == key,
            r.start == start,
            r.value == value,
    {
        StoreKeyStartValue { key, start, value }
    }

    /// The offset just past the written bytes.
    pub fn end(&self) -> (r: u64)
        requires
            self.start + self.value@.len() <= u64::MAX,
        ensures
            r == self.start + self.value@.len(),
    {
        self.start + self.value.len() as u64
    }
}

/// The keys and the child prefixes directly under a prefix.
#[derive(Debug, Clone, PartialEq, Eq)]
pub struct StoreKeysPrefixes {
    keys: Vec<StoreKey>,
    prefixes: Vec<StorePrefix>,
}

impl StoreKeysPrefixes {
    pub fn new(keys: Vec<StoreKey>, prefixes: Vec<StorePrefix>) -> (r: StoreKeysPrefixes)
        ensures
            r.spec_keys() == keys@,
            r.spec_prefixes() == prefixes@,
    {
        StoreKeysPrefixes { keys, prefixes }
    }

    pub closed spec fn spec_keys(&self) -> Seq<StoreKey> {
        self.keys@
    }

    pub closed spec fn spec_prefixes(&self) -> Seq<StorePrefix> {
        self.prefixes@
    }

    pub fn keys(&self) -> (r: &Vec<StoreKey>)
        ensures
            r@ == self.spec_keys(),
    {
        &self.keys
    }

    pub fn prefixes(&self) -> (r: &Vec<StorePrefix>)
        ensures
            r@ == self.spec_prefixes(),
    {
        &self.prefixes
    }
}

/// A storage error.
#[derive(Debug, Clone, PartialEq, Eq)]
pub enum StorageError {
    /// A write was attempted on a read-only store.
    ReadOnly,
    /// An I/O error, with its message.
    IOError(String),
    /// A JSON document could not be read or written.
    InvalidJSON(String),
    /// An invalid store prefix.
    StorePrefixError(StorePrefixError),
    /// An invalid store key.
    InvalidStoreKey(StoreKeyError),
    /// An invalid node path.
    NodePathError(NodePathError),
    /// A byte range reaches outside the value.
    InvalidByteRangeError(ByteRange),
    /// The store does not offer the operation.
    Unsupported(String),
    /// The size of a key must be known and is not.
    UnknownKeySize(StoreKey),
    /// Any other error.
    Other(String),
}

/// A store that can be read.
pub trait ReadableStorageTraits {
    /// What the store holds: each key's value.
    spec fn values(&self) -> Map<Seq<char>, Seq<u8>>;

    /// The value of `key`, or `None` where the store has no such key.
    fn get(&self, key: &StoreKey) -> (r: Result<Option<Vec<u8>>, StorageError>)
        ensures
            r matches Ok(Some(v)) ==> self.values().contains_key(key@) && v@
                == self.values()[key@],
            r matches Ok(None) ==> !self.values().contains_key(key@),
    ;

    /// The bytes of `key`'s value that each of `byte_ranges` selects, or `None` where the
    /// store has no such key.
    fn get_partial_values_key(&self, key: &StoreKey, byte_ranges: &[ByteRange]) -> (r: Result<
        Option<Vec<Vec<u8>>>,
        StorageError,
    >)
        ensures
            r matches Ok(Some(parts)) ==> self.values().contains_key(key@) && slices_of(
                parts@,
                self.values()[key@],
                byte_ranges@,
            ) && ranges_valid(byte_ranges@, self.values()[key@].len() as int),
            r matches Ok(None) ==> !self.values().contains_key(key@),
    ;

    /// The size of `key`'s value, or `None` where the store has no such key.
    fn size_key(&self, key: &StoreKey) -> (r: Result<Option<u64>, StorageError>)
        ensures
            r matches Ok(Some(n)) ==> self.values().contains_key(key@) && n
                == self.values()[key@].len(),
            r matches Ok(None) ==> !self.values().contains_key(key@),
    ;
}

/// A store that can be written.
pub trait WritableStorageTraits: ReadableStorageTraits {
    /// Stores `value` at `key`. On an error the store is as it was.
    fn set(&mut self, key: &StoreKey, value: &[u8]) -> (r: Result<(), StorageError>)
        ensures
            r is Ok ==> final(self).values() == old(self).values().insert(key@, value@),
            r is Err ==> final(self).values() == old(self).values(),
    ;

    /// Removes `key`; says whether it was there. On an error the store is as it was.
    fn erase(&mut self, key: &StoreKey) -> (r: Result<bool, StorageError>)
        ensures
            r matches Ok(existed) ==> existed == old(self).values().contains_key(key@)
                && final(self).values() == old(self).values().remove(key@),
            r is Err ==> final(self).values() == old(self).values(),
    ;
}

/// A store that can be listed.
pub trait ListableStorageTraits {
    /// Every key in the store.
    fn list(&self) -> Result<Vec<StoreKey>, StorageError>;

    /// Every key under `prefix`.
    fn list_prefix(&self, prefix: &StorePrefix) -> Result<Vec<StoreKey>, StorageError>;

    /// The keys and child prefixes directly under `prefix`.
    fn list_dir(&self, prefix: &StorePrefix) -> Result<StoreKeysPrefixes, StorageError>;
}

/// A store that can be read and written.
pub trait ReadableWritableStorageTraits: ReadableStorageTraits + WritableStorageTraits {

}

impl<T: ReadableStorageTraits + WritableStorageTraits> ReadableWritableStorageTraits for T {

}

/// A store that can be read and listed.
pub trait ReadableListableStorageTraits: ReadableStorageTraits + ListableStorageTraits {

}

impl<T: ReadableStorageTraits + ListableStorageTraits> ReadableListableStorageTraits for T {

}

/// A store held in memory.
pub struct MemoryStore {
    map: StringHashMap<Vec<u8>>,
}

impl MemoryStore {
    pub closed spec fn contents(&self) -> Map<Seq<char>, Seq<u8>> {
        self.map@.map_values(|v: Vec<u8>| v@)
    }

    /// An empty store.
    pub fn new() -> (r: MemoryStore)
        ensures
            r.contents() == Map::<Seq<char>, Seq<u8>>::empty(),
    {
        let r = MemoryStore { map: StringHashMap::new() };
        proof {
            assert(r.contents() =~= Map::<Seq<char>, Seq<u8>>::empty());
        }
        r
    }
}

impl ReadableStorageTraits for MemoryStore {
    open spec fn values(&self) -> Map<Seq<char>, Seq<u8>> {
        self.contents()
    }

    fn get(&self, key: &StoreKey) -> (r: Result<Option<Vec<u8>>, StorageError>) {
        match self.map.get(key.as_str()) {
            Some(v) => Ok(Some(copy_all(v.as_slice()))),
            None => Ok(None),
        }
    }

    fn get_partial_values_key(&self, key: &StoreKey, byte_ranges: &[ByteRange]) -> (r: Result<
        Option<Vec<Vec<u8>>>,
        StorageError,
    >) {
        match self.map.get(key.as_str()) {
            Some(v) => {
                if let Some(range) = crate::bytes::first_invalid_range(byte_ranges, v.len() as u64) {
                    return Err(StorageError::InvalidByteRangeError(range));
                }
                match extract_byte_ranges(v.as_slice(), byte_ranges) {
                    Some(parts) => Ok(Some(parts)),
                    None => Err(StorageError::Other(String::new())),
                }
            },
            None => Ok(None),
        }
    }

    fn size_key(&self, key: &StoreKey) -> (r: Result<Option<u64>, StorageError>) {
        match self.map.get(key.as_str()) {
            Some(v) => Ok(Some(v.len() as u64)),
            None => Ok(None),
        }
    }
}

impl WritableStorageTraits for MemoryStore {
    fn set(&mut self, key: &StoreKey, value: &[u8]) -> (r: Result<(), StorageError>) {
        let k = keep(key.as_str());
        self.map.insert(k, copy_all(value));
        proof {
            assert(self.contents() =~= old(self).contents().insert(key@, value@));
        }
        Ok(())
    }

    fn erase(&mut self, key: &StoreKey) -> (r: Result<bool, StorageError>) {
        let existed = self.map.contains_key(key.as_str());
        self.map.remove(key.as_str());
        proof {
            assert(self.contents() =~= old(self).contents().remove(key@));
        }
        Ok(existed)
    }
}

/// `path` without its leading `/`.
pub open spec fn path_body(path: Seq<char>) -> Seq<char> {
    path.drop_first()
}

/// The key of the metadata document of the node at `path`.
pub open spec fn meta_key_of(path: Seq<char>) -> Seq<char> {
    if path.len() == 1 {
        "zarr.json"@
    } else {
        path_body(path) + "/zarr.json"@
    }
}

/// The key of the chunk whose key component is `component`, in the array at `path`.
pub open spec fn data_key_of(path: Seq<char>, component: Seq<char>) -> Seq<char> {
    if path.len() == 1 {
        component
    } else {
        path_body(path).push('/') + component
    }
}

/// The key of the metadata document of the node at `path`.
pub fn meta_key(path: &NodePath) -> (r: StoreKey)
    requires
        path.wf(),
    ensures
        r@ == meta_key_of(path@),
{
    let p = path.as_str();
    let n = p.unicode_len();
    if n == 1 {
        StoreKey { key: String::from_str("zarr.json") }
    } else {
        let body = p.substring_char(1, n);
        let mut key = String::from_str(body);
        key.append("/zarr.json");
        proof {
            assert(body@ =~= path_body(path@));
        }
        StoreKey { key }
    }
}

/// The key of chunk `chunk_grid_indices` of the array at `path`.
pub fn data_key(
    path: &NodePath,
    chunk_grid_indices: &[u64],
    chunk_key_encoding: &ChunkKeyEncoding,
) -> (r: StoreKey)
    requires
        path.wf(),
    ensures
        r@ == data_key_of(path@, encoded_key(*chunk_key_encoding, chunk_grid_indices@)),
{
    let component = chunk_key_encoding.encode(chunk_grid_indices);
    let p = path.as_str();
    let n = p.unicode_len();
    if n == 1 {
        StoreKey { key: component }
    } else {
        let body = p.substring_char(1, n);
        let mut key = String::from_str(body);
        push_char(&mut key, '/');
        key.append(component.as_str());
        proof {
            assert(body@ =~= path_body(path@));
        }
        StoreKey { key }
    }
}

/// Stores encoded chunk bytes at the key of chunk `chunk_grid_indices`.
pub fn store_chunk<TStorage: WritableStorageTraits>(
    storage: &mut TStorage,
    array_path: &NodePath,
    chunk_grid_indices: &[u64],
    chunk_key_encoding: &ChunkKeyEncoding,
    chunk_serialised: &[u8],
) -> (r: Result<(), StorageError>)
    requires
        array_path.wf(),
    ensures
        r is Ok ==> final(storage).values() == old(storage).values().insert(
            data_key_of(array_path@, encoded_key(*chunk_key_encoding, chunk_grid_indices@)),
            chunk_serialised@,
        ),
        r is Err ==> final(storage).values() == old(storage).values(),
{
    let key = data_key(array_path, chunk_grid_indices, chunk_key_encoding);
    storage.set(&key, chunk_serialised)
}

/// The encoded bytes of chunk `chunk_grid_indices`, or `None` where it is not stored.
pub fn retrieve_chunk<TStorage: ReadableStorageTraits>(
    storage: &TStorage,
    array_path: &NodePath,
    chunk_grid_indices: &[u64],
    chunk_key_encoding: &ChunkKeyEncoding,
) -> (r: Result<Option<Vec<u8>>, StorageError>)
    requires
        array_path.wf(),
    ensures
        ({
            let key = data_key_of(array_path@, encoded_key(*chunk_key_encoding, chunk_grid_indices@));
            &&& r matches Ok(Some(v)) ==> storage.values().contains_key(key) && v@
                == storage.values()[key]
            &&& r matches Ok(None) ==> !storage.values().contains_key(key)
        }),
{
    let key = data_key(array_path, chunk_grid_indices, chunk_key_encoding);
    storage.get(&key)
}

/// Erases chunk `chunk_grid_indices`; says whether it was stored.
pub fn erase_chunk<TStorage: WritableStorageTraits>(
    storage: &mut TStorage,
    array_path: &NodePath,
    chunk_grid_indices: &[u64],
    chunk_key_encoding: &ChunkKeyEncoding,
) -> (r: Result<bool, StorageError>)
    requires
        array_path.wf(),
    ensures
        ({
            let key = data_key_of(array_path@, encoded_key(*chunk_key_encoding, chunk_grid_indices@));
            &&& r matches Ok(existed) ==> existed == old(storage).values().contains_key(key)
                && final(storage).values() == old(storage).values().remove(key)
            &&& r is Err ==> final(storage).values() == old(storage).values()
        }),
{
    let key = data_key(array_path, chunk_grid_indices, chunk_key_encoding);
    storage.erase(&key)
}

/// The bytes of chunk `chunk_grid_indices` that each of `byte_ranges` selects, or `None`
/// where the chunk is not stored.
pub fn retrieve_partial_values<TStorage: ReadableStorageTraits>(
    storage: &TStorage,
    array_path: &NodePath,
    chunk_grid_indices: &[u64],
    chunk_key_encoding: &ChunkKeyEncoding,
    byte_ranges: &[ByteRange],
) -> (r: Result<Option<Vec<Vec<u8>>>, StorageError>)
    requires
        array_path.wf(),
    ensures
        ({
            let key = data_key_of(array_path@, encoded_key(*chunk_key_encoding, chunk_grid_indices@));
            &&& r matches Ok(Some(parts)) ==> storage.values().contains_key(key) && slices_of(
                parts@,
                storage.values()[key],
                byte_ranges@,
            ) && ranges_valid(byte_ranges@, storage.values()[key].len() as int)
            &&& r matches Ok(None) ==> !storage.values().contains_key(key)
        }),
{
    let key = data_key(array_path, chunk_grid_indices, chunk_key_encoding);
    storage.get_partial_values_key(&key, byte_ranges)
}

/// Whether key `i` of `keys` is the first occurrence of its value.
pub open spec fn first_occurrence(keys: Seq<StoreKey>, i: int) -> bool {
    forall|j: int| 0 <= j < i ==> keys[j]@ != keys[i]@
}

/// The key views of the first `n` of `keys`.
pub open spec fn key_set(keys: Seq<StoreKey>, n: int) -> Set<Seq<char>> {
    Set::new(|k: Seq<char>| exists|j: int| 0 <= j < n && keys[j]@ == k)
}

/// Erases each of `keys` in turn; says whether every erase found its key, which holds
/// when the keys are distinct and all were stored.
pub fn erase_values<TStorage: WritableStorageTraits>(storage: &mut TStorage, keys: &[StoreKey]) -> (r:
    Result<bool, StorageError>)
    ensures
        r is Ok ==> final(storage).values() == old(storage).values().remove_keys(
            key_set(keys@, keys@.len() as int),
        ),
        r matches Ok(all) ==> all == (forall|i: int|
            0 <= i < keys@.len() ==> old(storage).values().contains_key(#[trigger] keys@[i]@)
                && first_occurrence(keys@, i)),
{
    let mut all_deleted = true;
    let mut i: usize = 0;
    let ghost start = storage.values();
    proof {
        assert(start.remove_keys(key_set(keys@, 0)) =~= start);
    }
    while i < keys.len()
        invariant
            i <= keys@.len(),
            storage.values() == start.remove_keys(key_set(keys@, i as int)),
            all_deleted == (forall|j: int|
                0 <= j < i ==> start.contains_key(#[trigger] keys@[j]@) && first_occurrence(
                    keys@,
                    j,
                )),
        decreases keys@.len() - i,
    {
        let ghost before = storage.values();
        let existed = match storage.erase(&keys[i]) {
            Ok(e) => e,
            Err(e) => return Err(e),
        };
        proof {
            let ki = keys@[i as int]@;
            let s_old = key_set(keys@, i as int);
            let s_new = key_set(keys@, i + 1);
            assert(existed == (start.contains_key(ki) && first_occurrence(keys@, i as int))) by {
                if !first_occurrence(keys@, i as int) {
                    let j = choose|j: int| 0 <= j < i && !(keys@[j]@ != keys@[i as int]@);
                    assert(s_old.contains(ki));
                }
                if first_occurrence(keys@, i as int) {
                    assert(!s_old.contains(ki));
                }
            }
            assert(s_new =~= s_old.insert(ki)) by {
                assert forall|k: Seq<char>| s_new.contains(k) implies s_old.insert(ki).contains(k) by {
                    let j = choose|j: int| 0 <= j < i + 1 && keys@[j]@ == k;
                    if j < i {
                        assert(s_old.contains(k));
                    }
                }
                assert forall|k: Seq<char>| s_old.insert(ki).contains(k) implies s_new.contains(k) by {
                    if k == ki {
                        assert(keys@[i as int]@ == k);
                    } else {
                        let j = choose|j: int| 0 <= j < i && keys@[j]@ == k;
                        assert(0 <= j < i + 1 && keys@[j]@ == k);
                    }
                }
            }
            assert(storage.values() =~= start.remove_keys(s_new));
        }
        all_deleted = all_deleted && existed;
        i = i + 1;
    }
    Ok(all_deleted)
}

/// `value` with `patch` written from offset `start`, zero-filled where the value was
/// shorter than `start`.
pub open spec fn patched(value: Seq<u8>, start: int, patch: Seq<u8>) -> Seq<u8> {
    let end = start + patch.len();
    let len = if value.len() < end {
        end
    } else {
        value.len() as int
    };
    Seq::new(
        len as nat,
        |i: int|
            if start <= i < end {
                patch[i - start]
            } else if i < value.len() {
                value[i]
            } else {
                0u8
            },
    )
}

/// What a store holding `values` holds after the first `n` of `patches`, in order.
pub open spec fn patches_applied(
    values: Map<Seq<char>, Seq<u8>>,
    patches: Seq<StoreKeyStartValue>,
    n: int,
) -> Map<Seq<char>, Seq<u8>>
    decreases n,
{
    if n <= 0 {
        values
    } else {
        let before = patches_applied(values, patches, n - 1);
        let p = patches[n - 1];
        let current = if before.contains_key(p.key@) {
            before[p.key@]
        } else {
            Seq::empty()
        };
        before.insert(p.key@, patched(current, p.start as int, p.value@))
    }
}

/// The bytes of `value` that `range` selects, if it lies inside the value.
pub open spec fn range_read(value: Seq<u8>, range: ByteRange) -> Option<Seq<u8>> {
    if crate::bytes::range_valid(range, value.len() as int) {
        Some(crate::bytes::range_slice(value, range))
    } else {
        None
    }
}

/// Writes `value` over `bytes` from offset `start`, growing `bytes` with zeros as needed.
fn patch_bytes(bytes: &mut Vec<u8>, start: usize, value: &[u8])
    requires
        start + value@.len() <= usize::MAX,
    ensures
        final(bytes)@ == patched(old(bytes)@, start as int, value@),
{
    let end = start + value.len();
    while bytes.len() < end
        invariant
            end == start + value@.len(),
            bytes@.len() <= end || bytes@.len() == old(bytes)@.len(),
            old(bytes)@.len() <= bytes@.len(),
            forall|i: int| 0 <= i < old(bytes)@.len() ==> bytes@[i] == old(bytes)@[i],
            forall|i: int| old(bytes)@.len() <= i < bytes@.len() ==> bytes@[i] == 0u8,
        decreases end - bytes@.len(),
    {
        bytes.push(0u8);
    }
    let n = bytes.len();
    let mut i: usize = 0;
    while i < value.len()
        invariant
            end == start + value@.len(),
            n == bytes@.len(),
            end <= n,
            n == if old(bytes)@.len() < end {
                end as int
            } else {
                old(bytes)@.len() as int
            },
            i <= value@.len(),
            forall|j: int|
                0 <= j < n ==> #[trigger] bytes@[j] == if start <= j < start + i {
                    value@[j - start]
                } else if j < old(bytes)@.len() {
                    old(bytes)@[j]
                } else {
                    0u8
                },
        decreases value@.len() - i,
    {
        bytes.set(start + i, value[i]);
        i = i + 1;
    }
    proof {
        assert(bytes@ =~= patched(old(bytes)@, start as int, value@));
    }
}

/// Applies `key_start_values` in order: each writes its bytes into its key's value from
/// its offset, reading the value first and growing it with zeros as needed.
pub fn set_partial_values<TStorage: ReadableStorageTraits + WritableStorageTraits>(
    storage: &mut TStorage,
    key_start_values: &[StoreKeyStartValue],
) -> (r: Result<(), StorageError>)
    requires
        forall|i: int|
            0 <= i < key_start_values@.len() ==> #[trigger] key_start_values@[i].start
                + key_start_values@[i].value@.len() <= usize::MAX,
    ensures
        r is Ok ==> final(storage).values() == patches_applied(
            old(storage).values(),
            key_start_values@,
            key_start_values@.len() as int,
        ),
        key_start_values@.len() == 0 ==> r is Ok && final(storage).values() == old(
            storage,
        ).values(),
        r is Err ==> exists|k: int|
            0 <= k <= key_start_values@.len() && final(storage).values() == #[trigger] patches_applied(
                old(storage).values(),
                key_start_values@,
                k,
            ),
{
    let mut i: usize = 0;
    while i < key_start_values.len()
        invariant
            i <= key_start_values@.len(),
            forall|j: int|
                0 <= j < key_start_values@.len() ==> #[trigger] key_start_values@[j].start
                    + key_start_values@[j].value@.len() <= usize::MAX,
            storage.values() == patches_applied(old(storage).values(), key_start_values@, i as int),
        decreases key_start_values@.len() - i,
    {
        let kv = &key_start_values[i];
        let mut bytes = match storage.get(&kv.key) {
            Ok(Some(b)) => b,
            Ok(None) => Vec::new(),
            Err(e) => {
                proof {
                    assert(storage.values() == patches_applied(
                        old(storage).values(),
                        key_start_values@,
                        i as int,
                    ));
                }
                return Err(e);
            },
        };
        assert(kv.start + kv.value@.len() <= usize::MAX);
        patch_bytes(&mut bytes, kv.start as usize, kv.value);
        let ghost pre = storage.values();
        match storage.set(&kv.key, bytes.as_slice()) {
            Ok(()) => {},
            Err(e) => {
                proof {
                    assert(storage.values() == pre);
                    assert(storage.values() == patches_applied(
                        old(storage).values(),
                        key_start_values@,
                        i as int,
                    ));
                }
                return Err(e);
            },
        }
        i = i + 1;
    }
    Ok(())
}

/// Reads the byte ranges of `key_ranges` in order, asking the store once for each run of
/// consecutive ranges of one key. A range of a missing key reads as `None`.
pub fn get_partial_values_batched_by_key<TStorage: ReadableStorageTraits>(
    storage: &TStorage,
    key_ranges: &[StoreKeyRange],
) -> (r: Result<Vec<Option<Vec<u8>>>, StorageError>)
    ensures
        key_ranges@.len() == 0 ==> (r matches Ok(out) && out@.len() == 0),
        r matches Ok(out) ==> out@.len() == key_ranges@.len() && forall|i: int|
            0 <= i < key_ranges@.len() ==> {
                let key = (#[trigger] key_ranges@[i]).key@;
                &&& (out@[i] is Some <==> storage.values().contains_key(key))
                &&& out@[i] matches Some(b) ==> range_read(
                    storage.values()[key],
                    key_ranges@[i].byte_range,
                ) == Some(b@)
            },
{
    let n = key_ranges.len();
    let mut out: Vec<Option<Vec<u8>>> = Vec::new();
    let mut i: usize = 0;
    while i < n
        invariant
            n == key_ranges@.len(),
            i <= n,
            out@.len() == i,
            forall|t: int|
                0 <= t < i ==> {
                    let key = (#[trigger] key_ranges@[t]).key@;
                    &&& (out@[t] is Some <==> storage.values().contains_key(key))
                    &&& out@[t] matches Some(b) ==> range_read(
                        storage.values()[key],
                        key_ranges@[t].byte_range,
                    ) == Some(b@)
                },
        decreases n - i,
    {
        let key = &key_ranges[i].key;
        let mut ranges: Vec<ByteRange> = Vec::new();
        let mut j: usize = i;
        while j < n && crate::codec::str_eq(key_ranges[j].key.as_str(), key.as_str())
            invariant
                n == key_ranges@.len(),
                i <= j <= n,
                *key == key_ranges@[i as int].key,
                ranges@.len() == j - i,
                forall|t: int|
                    i <= t < j ==> #[trigger] key_ranges@[t].key@ == key@ && ranges@[t - i]
                        == key_ranges@[t].byte_range,
            decreases n - j,
        {
            ranges.push(key_ranges[j].byte_range);
            j = j + 1;
        }
        let parts = match storage.get_partial_values_key(key, ranges.as_slice()) {
            Ok(p) => p,
            Err(e) => return Err(e),
        };
        let ghost before = out@;
        let mut t: usize = i;
        while t < j
            invariant
                n == key_ranges@.len(),
                i <= t <= j <= n,
                *key == key_ranges@[i as int].key,
                ranges@.len() == j - i,
                forall|u: int|
                    i <= u < j ==> #[trigger] key_ranges@[u].key@ == key@ && ranges@[u - i]
                        == key_ranges@[u].byte_range,
                parts matches Some(ps) ==> storage.values().contains_key(key@) && slices_of(
                    ps@,
                    storage.values()[key@],
                    ranges@,
                ) && ranges_valid(ranges@, storage.values()[key@].len() as int),
                parts is None ==> !storage.values().contains_key(key@),
                out@.len() == t,
                forall|u: int|
                    0 <= u < t ==> {
                        let k = (#[trigger] key_ranges@[u]).key@;
                        &&& (out@[u] is Some <==> storage.values().contains_key(k))
                        &&& out@[u] matches Some(b) ==> range_read(
                            storage.values()[k],
                            key_ranges@[u].byte_range,
                        ) == Some(b@)
                    },
            decreases j - t,
        {
            match &parts {
                Some(ps) => {
                    let part = copy_all(ps[t - i].as_slice());
                    proof {
                        assert(key_ranges@[t as int].key@ == key@);
                        assert(ps@[t - i]@ == crate::bytes::range_slice(
                            storage.values()[key@],
                            ranges@[t - i],
                        ));
                        assert(crate::bytes::range_valid(
                            ranges@[t - i],
                            storage.values()[key@].len() as int,
                        ));
                    }
                    out.push(Some(part));
                },
                None => {
                    out.push(None);
                },
            }
            t = t + 1;
        }
        i = j;
    }
    Ok(out)
}

} // verus!
