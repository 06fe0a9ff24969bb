//! Chunk key encodings: from chunk grid coordinates to store key components.
use vstd::prelude::*;
use vstd::string::StringExecFns;

verus! {

/// The character between the components of a chunk key.
#[derive(Debug, Clone, Copy, PartialEq, Eq, Structural)]
pub enum ChunkKeySeparator {
    /// `/`
    Slash,
    /// `.`
    Dot,
}

/// The layout of a chunk key.
#[derive(Debug, Clone, Copy, PartialEq, Eq, Structural)]
pub enum ChunkKeyEncodingStyle {
    /// `c` followed by each coordinate, all separated: `c/1/2`.
    Default,
    /// The coordinates alone, separated: `1.2`.
    V2,
}

/// A chunk key encoding: a layout and a separator.
#[derive(Debug, Clone, Copy, PartialEq, Eq, Structural)]
pub struct ChunkKeyEncoding {
    pub style: ChunkKeyEncodingStyle,
    pub separator: ChunkKeySeparator,
}

pub open spec fn separator_char(s: ChunkKeySeparator) -> char {
    match s {
        ChunkKeySeparator::Slash => '/',
        ChunkKeySeparator::Dot => '.',
    }
}

/// The character of decimal digit `d`.
pub open spec fn digit_char(d: int) -> char {
    if d == 0 {
        '0'
    } else if d == 1 {
        '1'
    } else if d == 2 {
        '2'
    } else if d == 3 {
        '3'
    } else if d == 4 {
        '4'
    } else if d == 5 {
        '5'
    } else if d == 6 {
        '6'
    } else if d == 7 {
        '7'
    } else if d == 8 {
        '8'
    } else {
        '9'
    }
}

/// The value of decimal digit character `c`.
pub open spec fn digit_value(c: char) -> int {
    if c == '1' {
        1
    } else if c == '2' {
        2
    } else if c == '3' {
        3
    } else if c == '4' {
        4
    } else if c == '5' {
        5
    } else if c == '6' {
        6
    } else if c == '7' {
        7
    } else if c == '8' {
        8
    } else if c == '9' {
        9
    } else {
        0
    }
}

/// The decimal digits of `n`, most significant first, without leading zeros.
pub open spec fn decimal(n: nat) -> Seq<char>
    decreases n,
{
    if n < 10 {
        seq![digit_char(n as int)]
    } else {
        decimal(n / 10).push(digit_char((n % 10) as int))
    }
}

/// The decimal forms of `coords`, separated by `sep`.
pub open spec fn join_decimal(coords: Seq<u64>, sep: char) -> Seq<char>
    decreases coords.len(),
{
    if coords.len() == 0 {
        Seq::empty()
    } else if coords.len() == 1 {
        decimal(coords[0] as nat)
    } else {
        join_decimal(coords.drop_last(), sep).push(sep) + decimal(coords.last() as nat)
    }
}

/// The key component that `encoding` gives to chunk `coords`.
pub open spec fn encoded_key(encoding: ChunkKeyEncoding, coords: Seq<u64>) -> Seq<char> {
    let sep = separator_char(encoding.separator);
    match encoding.style {
        ChunkKeyEncodingStyle::Default => if coords.len() == 0 {
            seq!['c']
        } else {
            seq!['c', sep] + join_decimal(coords, sep)
        },
        ChunkKeyEncodingStyle::V2 => if coords.len() == 0 {
            seq!['0']
        } else {
            join_decimal(coords, sep)
        },
    }
}

/// The number that decimal digits `s` denote.
pub open spec fn parse_decimal(s: Seq<char>) -> int
    decreases s.len(),
{
    if s.len() == 0 {
        0
    } else {
        parse_decimal(s.drop_last()) * 10 + digit_value(s.last())
    }
}

/// `s` cut at every `sep`; there is always at least one part.
pub open spec fn split(s: Seq<char>, sep: char) -> Seq<Seq<char>>
    decreases s.len(),
{
    if s.len() == 0 {
        seq![Seq::empty()]
    } else {
        let parts = split(s.drop_last(), sep);
        if s.last() == sep {
            parts.push(Seq::empty())
        } else {
            parts.update(parts.len() - 1, parts.last().push(s.last()))
        }
    }
}

/// The chunk coordinates that a key component written by `encoding` denotes.
pub open spec fn decoded_key(encoding: ChunkKeyEncoding, key: Seq<char>) -> Seq<u64> {
    let parts = split(key, separator_char(encoding.separator));
    let coords = match encoding.style {
        ChunkKeyEncodingStyle::Default => parts.drop_first(),
        ChunkKeyEncodingStyle::V2 => parts,
    };
    Seq::new(coords.len(), |i: int| parse_decimal(coords[i]) as u64)
}

proof fn lemma_split_nonempty(s: Seq<char>, sep: char)
    ensures
        split(s, sep).len() >= 1,
    decreases s.len(),
{
    if s.len() > 0 {
        lemma_split_nonempty(s.drop_last(), sep);
    }
}

/// Cutting `a`, a separator, then `b` gives the parts of `a` followed by those of `b`.
proof fn lemma_split_concat(a: Seq<char>, b: Seq<char>, sep: char)
    ensures
        split(a.push(sep) + b, sep) == split(a, sep) + split(b, sep),
    decreases b.len(),
{
    lemma_split_nonempty(a, sep);
    if b.len() == 0 {
        assert(a.push(sep) + b =~= a.push(sep));
        assert(a.push(sep).drop_last() =~= a);
        assert(split(a, sep).push(Seq::empty()) =~= split(a, sep) + split(b, sep));
    } else {
        let bf = b.drop_last();
        lemma_split_concat(a, bf, sep);
        lemma_split_nonempty(bf, sep);
        let s = a.push(sep) + b;
        assert(s.drop_last() =~= a.push(sep) + bf);
        assert(s.last() == b.last());
        let pa = split(a, sep);
        let pb = split(bf, sep);
        if b.last() == sep {
            assert((pa + pb).push(Seq::empty()) =~= pa + pb.push(Seq::empty()));
        } else {
            assert((pa + pb).update(
                (pa + pb).len() - 1,
                (pa + pb).last().push(b.last()),
            ) =~= pa + pb.update(pb.len() - 1, pb.last().push(b.last())));
        }
    }
}

proof fn lemma_digit(k: int, sep: char)
    requires
        0 <= k < 10,
        sep == '/' || sep == '.',
    ensures
        digit_value(digit_char(k)) == k,
        digit_char(k) != sep,
{
}

proof fn lemma_split_single(c: char, sep: char)
    requires
        c != sep,
    ensures
        split(seq![c], sep) == seq![seq![c]],
{
    let s = seq![c];
    assert(s.drop_last() =~= Seq::<char>::empty());
    assert(s.last() == c);
    let parts = split(Seq::<char>::empty(), sep);
    assert(parts == seq![Seq::<char>::empty()]);
    assert(parts.update(0, parts.last().push(c)) =~= seq![seq![c]]);
}

proof fn lemma_decimal_digits(n: nat, sep: char)
    requires
        sep == '/' || sep == '.',
    ensures
        split(decimal(n), sep) == seq![decimal(n)],
        parse_decimal(decimal(n)) == n,
        decimal(n).len() >= 1,
    decreases n,
{
    if n < 10 {
        lemma_digit(n as int, sep);
        let d = decimal(n);
        lemma_split_single(digit_char(n as int), sep);
        assert(d.drop_last() =~= Seq::<char>::empty());
        assert(parse_decimal(d) == parse_decimal(d.drop_last()) * 10 + digit_value(d.last()));
    } else {
        lemma_decimal_digits(n / 10, sep);
        lemma_digit((n % 10) as int, sep);
        let d = decimal(n);
        let h = decimal(n / 10);
        assert(d.drop_last() =~= h);
        assert(d.last() == digit_char((n % 10) as int));
        let parts = split(h, sep);
        assert(parts.update(0, parts.last().push(d.last())) =~= seq![d]);
        assert(parse_decimal(d) == (n / 10) as int * 10 + (n % 10) as int);
    }
}

proof fn lemma_split_join(coords: Seq<u64>, sep: char)
    requires
        coords.len() >= 1,
        sep == '/' || sep == '.',
    ensures
        split(join_decimal(coords, sep), sep) == Seq::new(
            coords.len(),
            |i: int| decimal(coords[i] as nat),
        ),
    decreases coords.len(),
{
    if coords.len() == 1 {
        lemma_decimal_digits(coords[0] as nat, sep);
        assert(split(join_decimal(coords, sep), sep) =~= Seq::new(
            coords.len(),
            |i: int| decimal(coords[i] as nat),
        ));
    } else {
        let f = coords.drop_last();
        lemma_split_join(f, sep);
        lemma_decimal_digits(coords.last() as nat, sep);
        lemma_split_concat(join_decimal(f, sep), decimal(coords.last() as nat), sep);
        assert(split(join_decimal(coords, sep), sep) =~= Seq::new(
            coords.len(),
            |i: int| decimal(coords[i] as nat),
        ));
    }
}

/// Key round trip: decoding the key component of chunk `coords` gives `coords` back,
/// for both layouts and both separators. The one exception is the `V2` key of a
/// zero-dimensional chunk, `0`, which reads back as the coordinate `[0]`.
pub proof fn lemma_key_round_trip(encoding: ChunkKeyEncoding, coords: Seq<u64>)
    requires
        !(encoding.style == ChunkKeyEncodingStyle::V2 && coords.len() == 0),
    ensures
        decoded_key(encoding, encoded_key(encoding, coords)) == coords,
{
    let sep = separator_char(encoding.separator);
    let key = encoded_key(encoding, coords);
    if coords.len() == 0 {
        lemma_split_single('c', sep);
        assert(decoded_key(encoding, key) =~= coords);
    } else {
        lemma_split_join(coords, sep);
        let parts = Seq::new(coords.len(), |i: int| decimal(coords[i] as nat));
        assert forall|i: int| 0 <= i < coords.len() implies parse_decimal(#[trigger] parts[i])
            == coords[i] by {
            lemma_decimal_digits(coords[i] as nat, sep);
        }
        match encoding.style {
            ChunkKeyEncodingStyle::Default => {
                assert(key =~= seq!['c'].push(sep) + join_decimal(coords, sep));
                lemma_split_concat(seq!['c'], join_decimal(coords, sep), sep);
                lemma_split_single('c', sep);
                assert((seq![seq!['c']] + parts).drop_first() =~= parts);
            },
            ChunkKeyEncodingStyle::V2 => {},
        }
        assert(decoded_key(encoding, key) =~= coords);
    }
}

/// Relies on `String::push`: appends one character.
#[verifier::external_body]
pub(crate) fn push_char(s: &mut String, c: char)
    ensures
        final(s)@ == old(s)@.push(c),
{
    s.push(c);
}

fn digit(d: u64) -> (c: char)
    requires
        d < 10,
    ensures
        c == digit_char(d as int),
{
    if d == 0 {
        '0'
    } else if d == 1 {
        '1'
    } else if d == 2 {
        '2'
    } else if d == 3 {
        '3'
    } else if d == 4 {
        '4'
    } else if d == 5 {
        '5'
    } else if d == 6 {
        '6'
    } else if d == 7 {
        '7'
    } else if d == 8 {
        '8'
    } else {
        '9'
    }
}

/// Appends the decimal form of `n`.
pub fn push_decimal(s: &mut String, n: u64)
    ensures
        final(s)@ == old(s)@ + decimal(n as nat),
    decreases n,
{
    if n >= 10 {
        push_decimal(s, n / 10);
        push_char(s, digit(n % 10));
        proof {
            assert(old(s)@ + decimal(n as nat) =~= old(s)@ + decimal((n / 10) as nat) + seq![
                digit_char((n % 10) as int),
            ]);
        }
    } else {
        push_char(s, digit(n));
    }
}

impl ChunkKeyEncoding {
    /// The `default` encoding, separated by `/`.
    pub fn new_default() -> (r: ChunkKeyEncoding)
        ensures
            r.style == ChunkKeyEncodingStyle::Default,
            r.separator == ChunkKeySeparator::Slash,
    {
        ChunkKeyEncoding {
            style: ChunkKeyEncodingStyle::Default,
            separator: ChunkKeySeparator::Slash,
        }
    }

    /// The `v2` encoding, separated by `.`.
    pub fn new_v2() -> (r: ChunkKeyEncoding)
        ensures
            r.style == ChunkKeyEncodingStyle::V2,
            r.separator == ChunkKeySeparator::Dot,
    {
        ChunkKeyEncoding { style: ChunkKeyEncodingStyle::V2, separator: ChunkKeySeparator::Dot }
    }

    /// The encoding that metadata names `name` (`default` or `v2`), with `separator` (`/`
    /// or `.`; where absent, `/` for `default` and `.` for `v2`).
    pub fn from_name(name: &str, separator: Option<&str>) -> (r: Option<ChunkKeyEncoding>)
        ensures
            r matches Some(e) ==> (e.style == ChunkKeyEncodingStyle::Default) == (name@
                == "default"@) && (e.style == ChunkKeyEncodingStyle::V2) == (name@ == "v2"@)
                && match separator {
                Some(s) => (s@ == "/"@ && e.separator == ChunkKeySeparator::Slash) || (s@ == "."@
                    && e.separator == ChunkKeySeparator::Dot),
                None => e.separator == if e.style == ChunkKeyEncodingStyle::Default {
                    ChunkKeySeparator::Slash
                } else {
                    ChunkKeySeparator::Dot
                },
            },
            (name@ == "default"@ || name@ == "v2"@) && (separator matches Some(s) ==> (s@ == "/"@
                || s@ == "."@)) ==> r is Some,
    {
        proof {
            reveal_strlit("default");
            reveal_strlit("v2");
            reveal_strlit("/");
            reveal_strlit(".");
            assert("default"@[0] != "v2"@[0]);
            assert("/"@[0] != "."@[0]);
        }
        let style = if crate::codec::str_eq(name, "default") {
            ChunkKeyEncodingStyle::Default
        } else if crate::codec::str_eq(name, "v2") {
            ChunkKeyEncodingStyle::V2
        } else {
            return None;
        };
        let separator = match separator {
            Some(s) => if crate::codec::str_eq(s, "/") {
                ChunkKeySeparator::Slash
            } else if crate::codec::str_eq(s, ".") {
                ChunkKeySeparator::Dot
            } else {
                return None;
            },
            None => match style {
                ChunkKeyEncodingStyle::Default => ChunkKeySeparator::Slash,
                ChunkKeyEncodingStyle::V2 => ChunkKeySeparator::Dot,
            },
        };
        Some(ChunkKeyEncoding { style, separator })
    }

    /// The encoding's metadata name.
    pub fn name(&self) -> (r: String)
        ensures
            r@ == match self.style {
                ChunkKeyEncodingStyle::Default => "default"@,
                ChunkKeyEncodingStyle::V2 => "v2"@,
            },
    {
        match self.style {
            ChunkKeyEncodingStyle::Default => String::from_str("default"),
            ChunkKeyEncodingStyle::V2 => String::from_str("v2"),
        }
    }

    /// The encoding's separator, as metadata writes it.
    pub fn separator_str(&self) -> (r: String)
        ensures
            r@ == seq![separator_char(self.separator)],
    {
        let mut s = String::new();
        match self.separator {
            ChunkKeySeparator::Slash => push_char(&mut s, '/'),
            ChunkKeySeparator::Dot => push_char(&mut s, '.'),
        }
        proof {
            assert(s@ =~= seq![separator_char(self.separator)]);
        }
        s
    }

    /// The key component of chunk `chunk_grid_indices`.
    pub fn encode(&self, chunk_grid_indices: &[u64]) -> (r: String)
        ensures
            r@ == encoded_key(*self, chunk_grid_indices@),
    {
        let sep = match self.separator {
            ChunkKeySeparator::Slash => '/',
            ChunkKeySeparator::Dot => '.',
        };
        let n = chunk_grid_indices.len();
        let mut s = String::new();
        if n == 0 {
            match self.style {
                ChunkKeyEncodingStyle::Default => push_char(&mut s, 'c'),
                ChunkKeyEncodingStyle::V2 => push_char(&mut s, '0'),
            }
            proof {
                assert(s@ =~= encoded_key(*self, chunk_grid_indices@));
            }
            return s;
        }
        let ghost prefix: Seq<char> = match self.style {
            ChunkKeyEncodingStyle::Default => seq!['c', sep],
            ChunkKeyEncodingStyle::V2 => Seq::empty(),
        };
        match self.style {
            ChunkKeyEncodingStyle::Default => {
                push_char(&mut s, 'c');
                push_char(&mut s, sep);
            },
            ChunkKeyEncodingStyle::V2 => {},
        }
        proof {
            assert(s@ =~= prefix);
        }
        push_decimal(&mut s, chunk_grid_indices[0]);
        let mut i: usize = 1;
        proof {
            assert(chunk_grid_indices@.subrange(0, 1).drop_last() =~= Seq::<u64>::empty());
            assert(join_decimal(chunk_grid_indices@.subrange(0, 1), sep) =~= decimal(
                chunk_grid_indices@[0] as nat,
            ));
        }
        while i < n
            invariant
                1 <= i <= n,
                n == chunk_grid_indices@.len(),
                sep == separator_char(self.separator),
                s@ == prefix + join_decimal(chunk_grid_indices@.subrange(0, i as int), sep),
            decreases n - i,
        {
            push_char(&mut s, sep);
            push_decimal(&mut s, chunk_grid_indices[i]);
            proof {
                let c = chunk_grid_indices@.subrange(0, i + 1);
                assert(c.drop_last() =~= chunk_grid_indices@.subrange(0, i as int));
                assert(s@ =~= prefix + join_decimal(c, sep));
            }
            i = i + 1;
        }
        proof {
            assert(chunk_grid_indices@.subrange(0, n as int) =~= chunk_grid_indices@);
            assert(s@ =~= encoded_key(*self, chunk_grid_indices@));
        }
        s
    }
}

} // verus!
