//! Byte ranges and small byte-buffer helpers.
use vstd::prelude::*;

verus! {

/// A range of bytes of a value.
#[derive(Debug, Clone, Copy, PartialEq, Eq, Structural)]
pub enum ByteRange {
    /// From an offset, for a length or to the end.
    FromStart(u64, Option<u64>),
    /// The last `n` bytes.
    Suffix(u64),
}

/// Where `range` starts in a value of `size` bytes.
pub open spec fn range_start(range: ByteRange, size: int) -> int {
    match range {
        ByteRange::FromStart(offset, _) => offset as int,
        ByteRange::Suffix(n) => size - n,
    }
}

/// Where `range` ends, exclusive, in a value of `size` bytes.
pub open spec fn range_end(range: ByteRange, size: int) -> int {
    match range {
        ByteRange::FromStart(offset, Some(length)) => offset + length,
        ByteRange::FromStart(_, None) => size,
        ByteRange::Suffix(_) => size,
    }
}

/// `range` lies inside a value of `size` bytes.
pub open spec fn range_valid(range: ByteRange, size: int) -> bool {
    0 <= range_start(range, size) <= range_end(range, size) <= size
}

/// The bytes of `value` that `range` selects.
pub open spec fn range_slice(value: Seq<u8>, range: ByteRange) -> Seq<u8> {
    value.subrange(range_start(range, value.len() as int), range_end(range, value.len() as int))
}

/// Every range of `ranges` lies inside a value of `size` bytes.
pub open spec fn ranges_valid(ranges: Seq<ByteRange>, size: int) -> bool {
    forall|i: int| 0 <= i < ranges.len() ==> range_valid(#[trigger] ranges[i], size)
}

/// `parts` holds, in order, the bytes of `value` that each of `ranges` selects.
pub open spec fn slices_of(parts: Seq<Vec<u8>>, value: Seq<u8>, ranges: Seq<ByteRange>) -> bool {
    &&& parts.len() == ranges.len()
    &&& forall|i: int| 0 <= i < ranges.len() ==> #[trigger] parts[i]@ == range_slice(value, ranges[i])
}

impl ByteRange {
    /// Where the range starts in a value of `size` bytes.
    pub fn start(&self, size: u64) -> (r: u64)
        requires
            range_valid(*self, size as int),
        ensures
            r == range_start(*self, size as int),
    {
        match self {
            ByteRange::FromStart(offset, _) => *offset,
            ByteRange::Suffix(n) => size - *n,
        }
    }

    /// Where the range ends, exclusive, in a value of `size` bytes.
    pub fn end(&self, size: u64) -> (r: u64)
        requires
            range_valid(*self, size as int),
        ensures
            r == range_end(*self, size as int),
    {
        match self {
            ByteRange::FromStart(offset, Some(length)) => *offset + *length,
            ByteRange::FromStart(_, None) => size,
            ByteRange::Suffix(_) => size,
        }
    }

    /// Whether the range lies inside a value of `size` bytes.
    pub fn is_valid(&self, size: u64) -> (r: bool)
        ensures
            r == range_valid(*self, size as int),
    {
        match self {
            ByteRange::FromStart(offset, Some(length)) => *offset <= size && *length <= size
                - *offset,
            ByteRange::FromStart(offset, None) => *offset <= size,
            ByteRange::Suffix(n) => *n <= size,
        }
    }
}

/// Whether every range of `ranges` lies inside a value of `size` bytes.
pub fn ranges_are_valid(ranges: &[ByteRange], size: u64) -> (r: bool)
    ensures
        r == ranges_valid(ranges@, size as int),
{
    let mut i: usize = 0;
    while i < ranges.len()
        invariant
            i <= ranges@.len(),
            forall|j: int| 0 <= j < i ==> range_valid(#[trigger] ranges@[j], size as int),
        decreases ranges@.len() - i,
    {
        if !ranges[i].is_valid(size) {
            return false;
        }
        i = i + 1;
    }
    true
}

/// The first range of `ranges` that does not lie inside a value of `size` bytes.
pub fn first_invalid_range(ranges: &[ByteRange], size: u64) -> (r: Option<ByteRange>)
    ensures
        r is None <==> ranges_valid(ranges@, size as int),
        r matches Some(range) ==> ranges@.contains(range) && !range_valid(range, size as int),
{
    let mut i: usize = 0;
    while i < ranges.len()
        invariant
            i <= ranges@.len(),
            forall|j: int| 0 <= j < i ==> range_valid(#[trigger] ranges@[j], size as int),
        decreases ranges@.len() - i,
    {
        if !ranges[i].is_valid(size) {
            proof {
                assert(ranges@[i as int] == ranges[i as int]);
            }
            return Some(ranges[i]);
        }
        i = i + 1;
    }
    None
}

/// A copy of `src[start..end]`.
pub fn copy_range(src: &[u8], start: usize, end: usize) -> (r: Vec<u8>)
    requires
        start <= end <= src@.len(),
    ensures
        r@ == src@.subrange(start as int, end as int),
{
    let mut r: Vec<u8> = Vec::with_capacity(end - start);
    let mut i: usize = start;
    while i < end
        invariant
            start <= i <= end,
            end <= src@.len(),
            r@ == src@.subrange(start as int, i as int),
        decreases end - i,
    {
        r.push(src[i]);
        proof {
            assert(r@ =~= src@.subrange(start as int, i + 1));
        }
        i = i + 1;
    }
    r
}

/// A copy of `src`.
pub fn copy_all(src: &[u8]) -> (r: Vec<u8>)
    ensures
        r@ == src@,
{
    let r = copy_range(src, 0, src.len());
    proof {
        assert(src@.subrange(0, src@.len() as int) =~= src@);
    }
    r
}

/// The bytes of `value` that each of `ranges` selects, in order.
pub fn extract_byte_ranges(value: &[u8], ranges: &[ByteRange]) -> (r: Option<Vec<Vec<u8>>>)
    ensures
        r is Some <==> ranges_valid(ranges@, value@.len() as int),
        r matches Some(parts) ==> slices_of(parts@, value@, ranges@),
{
    let vlen = value.len();
    let size = vlen as u64;
    if !ranges_are_valid(ranges, size) {
        return None;
    }
    let mut parts: Vec<Vec<u8>> = Vec::new();
    let mut i: usize = 0;
    while i < ranges.len()
        invariant
            size == vlen,
            vlen == value@.len(),
            i <= ranges@.len(),
            ranges_valid(ranges@, size as int),
            parts@.len() == i,
            forall|j: int| 0 <= j < i ==> #[trigger] parts@[j]@ == range_slice(value@, ranges@[j]),
        decreases ranges@.len() - i,
    {
        assert(range_valid(ranges@[i as int], size as int));
        let s = ranges[i].start(size);
        let e = ranges[i].end(size);
        assert(s <= e && e <= size);
        let part = copy_range(value, s as usize, e as usize);
        let ghost before = parts@;
        parts.push(part);
        proof {
            assert forall|j: int| 0 <= j < i + 1 implies #[trigger] parts@[j]@ == range_slice(
                value@,
                ranges@[j],
            ) by {
                if j < i {
                    assert(parts@[j] == before[j]);
                }
            }
        }
        i = i + 1;
    }
    Some(parts)
}

/// `n` copies of `pattern`, one after another.
pub open spec fn repeat(pattern: Seq<u8>, n: nat) -> Seq<u8>
    decreases n,
{
    if n == 0 {
        Seq::empty()
    } else {
        repeat(pattern, (n - 1) as nat) + pattern
    }
}

pub proof fn lemma_repeat_len(pattern: Seq<u8>, n: nat)
    ensures
        repeat(pattern, n).len() == (n as int) * (pattern.len() as int),
    decreases n,
{
    if n > 0 {
        let m = (n - 1) as nat;
        lemma_repeat_len(pattern, m);
        let l = pattern.len() as int;
        assert(repeat(pattern, n) == repeat(pattern, m) + pattern);
        assert(repeat(pattern, n).len() == m * l + l);
        assert(m * l + l == (n as int) * l) by (nonlinear_arith)
            requires
                m == n - 1,
        ;
    } else {
        assert((n as int) * (pattern.len() as int) == 0) by (nonlinear_arith)
            requires
                n == 0,
        ;
    }
}

/// Copy `k` of the pattern starts at `k * pattern.len()`.
pub proof fn lemma_repeat_index(pattern: Seq<u8>, n: nat, k: int, b: int)
    requires
        0 <= k < n,
        0 <= b < pattern.len(),
    ensures
        k * pattern.len() + b < n * pattern.len(),
        repeat(pattern, n)[k * pattern.len() + b] == pattern[b],
    decreases n,
{
    lemma_repeat_len(pattern, (n - 1) as nat);
    let l = pattern.len() as int;
    assert(k * l + b < n * l) by (nonlinear_arith)
        requires
            0 <= k < n,
            0 <= b < l,
    ;
    if k < n - 1 {
        lemma_repeat_index(pattern, (n - 1) as nat, k, b);
    } else {
        assert((n - 1) * l == k * l);
    }
}

/// `n` copies of `pattern`.
pub fn repeat_pattern(pattern: &[u8], n: usize) -> (r: Vec<u8>)
    requires
        n * pattern@.len() <= usize::MAX,
    ensures
        r@ == repeat(pattern@, n as nat),
{
    let mut r: Vec<u8> = Vec::new();
    let mut i: usize = 0;
    while i < n
        invariant
            i <= n,
            r@ == repeat(pattern@, i as nat),
        decreases n - i,
    {
        let mut j: usize = 0;
        let ghost before = r@;
        while j < pattern.len()
            invariant
                j <= pattern@.len(),
                r@ == before + pattern@.subrange(0, j as int),
            decreases pattern@.len() - j,
        {
            r.push(pattern[j]);
            proof {
                assert(r@ =~= before + pattern@.subrange(0, j + 1));
            }
            j = j + 1;
        }
        proof {
            assert(pattern@.subrange(0, pattern@.len() as int) =~= pattern@);
        }
        i = i + 1;
    }
    r
}

/// Whether `value` is `pattern` repeated; an empty pattern repeats only into nothing.
pub fn is_repeat_of(value: &[u8], pattern: &[u8]) -> (r: bool)
    ensures
        r <==> pattern@.len() > 0 && value@.len() % pattern@.len() == 0 && value@ == repeat(
            pattern@,
            (value@.len() / pattern@.len()) as nat,
        ),
{
    let l = pattern.len();
    if l == 0 {
        return false;
    }
    if value.len() % l != 0 {
        return false;
    }
    let vlen = value.len();
    let n = vlen / l;
    let mut k: usize = 0;
    proof {
        vstd::arithmetic::div_mod::lemma_fundamental_div_mod(value@.len() as int, l as int);
        lemma_repeat_len(pattern@, n as nat);
        assert(n * l == value@.len()) by (nonlinear_arith)
            requires
                value@.len() == l * n + 0,
        ;
    }
    while k < n
        invariant
            l == pattern@.len(),
            l > 0,
            vlen == value@.len(),
            n == vlen / l,
            n * l == vlen,
            k <= n,
            forall|kk: int, b: int|
                0 <= kk < k && 0 <= b < l ==> #[trigger] value@[kk * l + b] == pattern@[b],
        decreases n - k,
    {
        let mut b: usize = 0;
        proof {
            assert(k * l + l <= n * l) by (nonlinear_arith)
                requires
                    k < n,
            ;
        }
        while b < l
            invariant
                l == pattern@.len(),
                vlen == value@.len(),
                n == vlen / l,
                n * l == vlen,
                k < n,
                k * l + l <= n * l,
                b <= l,
                forall|kk: int, bb: int|
                    0 <= kk < k && 0 <= bb < l ==> #[trigger] value@[kk * l + bb] == pattern@[bb],
                forall|bb: int| 0 <= bb < b ==> #[trigger] value@[k * l + bb] == pattern@[bb],
            decreases l - b,
        {
            proof {
                assert(k * l + b < n * l) by (nonlinear_arith)
                    requires
                        k * l + l <= n * l,
                        b < l,
                ;
            }
            if value[k * l + b] != pattern[b] {
                proof {
                    let rep = repeat(pattern@, n as nat);
                    lemma_repeat_len(pattern@, n as nat);
                    lemma_repeat_index(pattern@, n as nat, k as int, b as int);
                    assert(value@[k * l + b] != rep[k * l + b]);
                    assert(value@ != rep);
                }
                return false;
            }
            b = b + 1;
        }
        k = k + 1;
    }
    proof {
        let rep = repeat(pattern@, n as nat);
        assert forall|i: int| 0 <= i < value@.len() implies value@[i] == rep[i] by {
            vstd::arithmetic::div_mod::lemma_fundamental_div_mod(i, l as int);
            let kk = i / (l as int);
            let bb = i % (l as int);
            assert(0 <= kk < n) by (nonlinear_arith)
                requires
                    0 <= i < n * l,
                    i == l * kk + bb,
                    0 <= bb < l,
            ;
            assert(i == kk * l + bb) by (nonlinear_arith)
                requires
                    i == l * kk + bb,
            ;
            lemma_repeat_index(pattern@, n as nat, kk, bb);
            assert(value@[kk * l + bb] == pattern@[bb]);
        }
        assert(value@ =~= rep);
    }
    true
}

} // verus!
