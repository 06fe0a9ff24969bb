//! Fill values of integer and boolean data types: numbers as little-endian element bytes.
use crate::array::DataType;
use vstd::prelude::*;
use vstd::string::StrSliceExecFns;

verus! {

/// `256` to the power `n`.
pub open spec fn pow256(n: nat) -> nat
    decreases n,
{
    if n == 0 {
        1
    } else {
        256 * pow256((n - 1) as nat)
    }
}

/// The number that little-endian `bytes` denote.
pub open spec fn le_value(bytes: Seq<u8>) -> nat
    decreases bytes.len(),
{
    if bytes.len() == 0 {
        0
    } else {
        le_value(bytes.drop_last()) + bytes.last() as nat * pow256((bytes.len() - 1) as nat)
    }
}

/// The number that little-endian two's-complement `bytes` denote.
pub open spec fn le_signed_value(bytes: Seq<u8>) -> int {
    let n = pow256(bytes.len());
    if 2 * le_value(bytes) >= n {
        le_value(bytes) - n
    } else {
        le_value(bytes) as int
    }
}

/// The data type's elements are unsigned integers (or booleans, as 0 and 1).
pub open spec fn is_unsigned(data_type: DataType) -> bool {
    matches!(data_type, DataType::Bool | DataType::UInt8 | DataType::UInt16 | DataType::UInt32 | DataType::UInt64)
}

/// The data type's elements are signed integers.
pub open spec fn is_signed(data_type: DataType) -> bool {
    matches!(data_type, DataType::Int8 | DataType::Int16 | DataType::Int32 | DataType::Int64)
}

/// The largest value plus one that an element of an unsigned type holds.
pub open spec fn unsigned_limit(data_type: DataType) -> nat {
    if data_type == DataType::Bool {
        2
    } else {
        pow256(data_type.spec_size() as nat)
    }
}

proof fn lemma_pow256_facts(n: nat)
    ensures
        pow256(n) >= 1,
        n <= 8 ==> pow256(n) <= 18446744073709551616,
        n == 8 ==> pow256(n) == 18446744073709551616,
        n == 1 ==> pow256(n) == 256,
        n == 2 ==> pow256(n) == 65536,
        n == 4 ==> pow256(n) == 4294967296,
    decreases n,
{
    if n > 0 {
        lemma_pow256_facts((n - 1) as nat);
        assert(pow256(1) == 256) by {
            assert(pow256(0) == 1);
        }
        assert(pow256(2) == 65536) by {
            assert(pow256(1) == 256);
        }
        assert(pow256(3) == 16777216) by {
            assert(pow256(2) == 65536);
        }
        assert(pow256(4) == 4294967296) by {
            assert(pow256(3) == 16777216);
        }
        assert(pow256(5) == 1099511627776) by {
            assert(pow256(4) == 4294967296);
        }
        assert(pow256(6) == 281474976710656) by {
            assert(pow256(5) == 1099511627776);
        }
        assert(pow256(7) == 72057594037927936) by {
            assert(pow256(6) == 281474976710656);
        }
        assert(pow256(8) == 18446744073709551616) by {
            assert(pow256(7) == 72057594037927936);
        }
        if n <= 8 {
            assert(n == 1 || n == 2 || n == 3 || n == 4 || n == 5 || n == 6 || n == 7 || n == 8);
        }
    }
}

/// The `n` little-endian bytes of `value`, which must be below `256^n`.
fn le_bytes(value: u64, n: usize) -> (r: Vec<u8>)
    requires
        (value as nat) < pow256(n as nat),
    ensures
        r@.len() == n,
        le_value(r@) == value,
{
    let mut r: Vec<u8> = Vec::new();
    let mut rest: u64 = value;
    let mut i: usize = 0;
    proof {
        assert(le_value(r@) == 0);
        assert(pow256(0) == 1);
    }
    while i < n
        invariant
            i <= n,
            r@.len() == i,
            le_value(r@) + pow256(i as nat) * (rest as nat) == value,
            (value as nat) < pow256(n as nat),
        decreases n - i,
    {
        let ghost before = r@;
        let d = rest % 256;
        r.push(d as u8);
        proof {
            assert(r@.drop_last() =~= before);
            let p = pow256(i as nat);
            assert(pow256((i + 1) as nat) == 256 * p);
            assert(le_value(r@) == le_value(before) + (d as nat) * p);
            assert((rest as nat) == 256 * ((rest / 256) as nat) + (d as nat));
            assert(p * (rest as nat) == p * (256 * ((rest / 256) as nat)) + p * (d as nat))
                by (nonlinear_arith)
                requires
                    (rest as nat) == 256 * ((rest / 256) as nat) + (d as nat),
            ;
            assert(p * (256 * ((rest / 256) as nat)) == (256 * p) * ((rest / 256) as nat))
                by (nonlinear_arith);
            assert(r@.last() == d as u8);
            let lb = le_value(before);
            let l = le_value(r@);
            let big = pow256((i + 1) as nat);
            let q = (rest / 256) as nat;
            let dn = d as nat;
            let rn = rest as nat;
            assert(l + big * q == value) by (nonlinear_arith)
                requires
                    l == lb + dn * p,
                    big == 256 * p,
                    lb + p * rn == value,
                    rn == 256 * q + dn,
            ;
        }
        rest = rest / 256;
        i = i + 1;
    }
    proof {
        let p = pow256(n as nat);
        assert(rest == 0) by {
            if rest > 0 {
                assert(p * (rest as nat) >= p) by (nonlinear_arith)
                    requires
                        rest >= 1,
                        p >= 0,
                ;
            }
        }
    }
    r
}

/// The element bytes of fill value `value` for an unsigned integer or boolean data type;
/// `None` for another data type or a value the type does not hold.
pub fn fill_value_from_unsigned(data_type: DataType, value: u64) -> (r: Option<Vec<u8>>)
    ensures
        r is Some <==> is_unsigned(data_type) && (value as nat) < unsigned_limit(data_type),
        r matches Some(b) ==> b@.len() == data_type.spec_size() && le_value(b@) == value,
{
    let n: usize = match data_type {
        DataType::Bool => 1,
        DataType::UInt8 => 1,
        DataType::UInt16 => 2,
        DataType::UInt32 => 4,
        DataType::UInt64 => 8,
        _ => return None,
    };
    proof {
        lemma_pow256_facts(n as nat);
    }
    let fits = match data_type {
        DataType::Bool => value <= 1,
        DataType::UInt8 => value < 256,
        DataType::UInt16 => value < 65536,
        DataType::UInt32 => value < 4294967296,
        _ => true,
    };
    if !fits {
        return None;
    }
    Some(le_bytes(value, n))
}

/// The element bytes of fill value `value` for a signed integer data type, in two's
/// complement; `None` for another data type or a value the type does not hold.
pub fn fill_value_from_signed(data_type: DataType, value: i64) -> (r: Option<Vec<u8>>)
    ensures
        r is Some <==> is_signed(data_type) && -(pow256(data_type.spec_size() as nat) as int)
            <= 2 * value < pow256(data_type.spec_size() as nat),
        r matches Some(b) ==> b@.len() == data_type.spec_size() && le_signed_value(b@) == value,
{
    let n: usize = match data_type {
        DataType::Int8 => 1,
        DataType::Int16 => 2,
        DataType::Int32 => 4,
        DataType::Int64 => 8,
        _ => return None,
    };
    proof {
        lemma_pow256_facts(n as nat);
    }
    let half: i64 = match data_type {
        DataType::Int8 => 128,
        DataType::Int16 => 32768,
        DataType::Int32 => 2147483648,
        _ => 0,
    };
    if n < 8 && (value < -half || value >= half) {
        return None;
    }
    let unsigned: u64 = if value >= 0 {
        value as u64
    } else if n == 8 {
        u64::MAX - ((-(value + 1)) as u64)
    } else {
        (value + 2 * half) as u64
    };
    let b = le_bytes(unsigned, n);
    proof {
        assert(pow256(b@.len()) == pow256(n as nat));
    }
    Some(b)
}

/// The value of hexadecimal digit `c`, or `None` where it is not one.
pub open spec fn hex_value(c: char) -> Option<u8> {
    if '0' <= c && c <= '9' {
        Some((c as u32 - '0' as u32) as u8)
    } else if 'a' <= c && c <= 'f' {
        Some((c as u32 - 'a' as u32 + 10) as u8)
    } else if 'A' <= c && c <= 'F' {
        Some((c as u32 - 'A' as u32 + 10) as u8)
    } else {
        None
    }
}

/// `text` is `0x` followed by pairs of hexadecimal digits.
pub open spec fn is_hex_text(text: Seq<char>) -> bool {
    &&& text.len() >= 2
    &&& text[0] == '0'
    &&& text[1] == 'x'
    &&& text.len() % 2 == 0
    &&& forall|i: int| 2 <= i < text.len() ==> (#[trigger] hex_value(text[i])) is Some
}

/// Byte `i` of the bytes that hexadecimal text `text` spells.
pub open spec fn hex_byte(text: Seq<char>, i: int) -> u8 {
    (hex_value(text[2 + 2 * i])->Some_0 * 16 + hex_value(text[3 + 2 * i])->Some_0) as u8
}

fn hex_digit(c: char) -> (r: Option<u8>)
    ensures
        r == hex_value(c),
{
    if '0' <= c && c <= '9' {
        Some((c as u32 - '0' as u32) as u8)
    } else if 'a' <= c && c <= 'f' {
        Some((c as u32 - 'a' as u32 + 10) as u8)
    } else if 'A' <= c && c <= 'F' {
        Some((c as u32 - 'A' as u32 + 10) as u8)
    } else {
        None
    }
}

/// The bytes that `text`, `0x` followed by pairs of hexadecimal digits, spells in order;
/// `None` for other text.
pub fn bytes_from_hex(text: &str) -> (r: Option<Vec<u8>>)
    ensures
        r is Some <==> is_hex_text(text@),
        r matches Some(b) ==> 2 * b@.len() + 2 == text@.len() && forall|i: int|
            0 <= i < b@.len() ==> #[trigger] b@[i] == hex_byte(text@, i),
{
    let n = text.unicode_len();
    if n < 2 || text.get_char(0) != '0' || text.get_char(1) != 'x' || n % 2 != 0 {
        return None;
    }
    let mut out: Vec<u8> = Vec::new();
    let mut i: usize = 2;
    while i < n
        invariant
            n == text@.len(),
            n % 2 == 0,
            2 <= i <= n,
            i % 2 == 0,
            text@[0] == '0' && text@[1] == 'x',
            2 * out@.len() + 2 == i,
            forall|j: int| 2 <= j < i ==> (#[trigger] hex_value(text@[j])) is Some,
            forall|j: int| 0 <= j < out@.len() ==> #[trigger] out@[j] == hex_byte(text@, j),
        decreases n - i,
    {
        let hi = match hex_digit(text.get_char(i)) {
            Some(v) => v,
            None => return None,
        };
        let lo = match hex_digit(text.get_char(i + 1)) {
            Some(v) => v,
            None => return None,
        };
        proof {
            assert(hi < 16 && lo < 16);
            assert(text@[2 + 2 * (out@.len() as int)] == text@[i as int]);
        }
        out.push(hi * 16 + lo);
        i = i + 2;
    }
    Some(out)
}

/// The lowercase hexadecimal digit of `v`, below 16.
pub open spec fn hex_char(v: int) -> char {
    if v < 10 {
        ((v + '0' as int) as u32) as char
    } else {
        ((v - 10 + 'a' as int) as u32) as char
    }
}

/// `0x` followed by two lowercase hexadecimal digits for each of `bytes`.
pub open spec fn hex_text(bytes: Seq<u8>) -> Seq<char>
    decreases bytes.len(),
{
    if bytes.len() == 0 {
        seq!['0', 'x']
    } else {
        hex_text(bytes.drop_last()).push(hex_char(bytes.last() as int / 16)).push(
            hex_char(bytes.last() as int % 16),
        )
    }
}

fn hex_char_exec(v: u8) -> (r: char)
    requires
        v < 16,
    ensures
        r == hex_char(v as int),
{
    if v < 10 {
        ((v as u32 + '0' as u32) as u8) as char
    } else {
        ((v as u32 - 10 + 'a' as u32) as u8) as char
    }
}

/// `bytes` as `0x` followed by two lowercase hexadecimal digits for each byte.
pub fn bytes_to_hex(bytes: &[u8]) -> (r: String)
    ensures
        r@ == hex_text(bytes@),
{
    let mut s = String::new();
    crate::chunk_key_encoding::push_char(&mut s, '0');
    crate::chunk_key_encoding::push_char(&mut s, 'x');
    let mut i: usize = 0;
    proof {
        assert(bytes@.subrange(0, 0) =~= Seq::<u8>::empty());
        assert(s@ =~= hex_text(bytes@.subrange(0, 0)));
    }
    while i < bytes.len()
        invariant
            i <= bytes@.len(),
            s@ == hex_text(bytes@.subrange(0, i as int)),
        decreases bytes@.len() - i,
    {
        let b = bytes[i];
        crate::chunk_key_encoding::push_char(&mut s, hex_char_exec(b / 16));
        crate::chunk_key_encoding::push_char(&mut s, hex_char_exec(b % 16));
        proof {
            assert(bytes@.subrange(0, i + 1).drop_last() =~= bytes@.subrange(0, i as int));
        }
        i = i + 1;
    }
    proof {
        assert(bytes@.subrange(0, bytes@.len() as int) =~= bytes@);
    }
    s
}

} // verus!
