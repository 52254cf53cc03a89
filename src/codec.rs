//! Byte-level encodings shared by the engine: lowercase hex, decimal
//! numbers, SHA-1 digests and zlib streams.

use flate2::read::ZlibDecoder;
use flate2::write::ZlibEncoder;
use flate2::Compression;
use sha1::{Digest, Sha1};
use std::io::{Read, Write};
use vstd::prelude::*;

verus! {

/// The SHA-1 digest of a byte sequence.
pub uninterp spec fn sha1_of(data: Seq<u8>) -> Seq<u8>;

/// The zlib stream that the default compression level produces for `data`.
pub uninterp spec fn zlib_of(data: Seq<u8>) -> Seq<u8>;

/// What a zlib stream decompresses to, or `None` when it is not a valid stream.
pub uninterp spec fn inflate_of(data: Seq<u8>) -> Option<Seq<u8>>;

/// The lowercase hex digit for a value below 16.
pub open spec fn hex_digit(n: int) -> char {
    seq!['0', '1', '2', '3', '4', '5', '6', '7', '8', '9', 'a', 'b', 'c', 'd', 'e', 'f'][n]
}

/// Lowercase hex text of a byte sequence, high nibble first.
pub open spec fn hex_of(b: Seq<u8>) -> Seq<char>
    decreases b.len(),
{
    if b.len() == 0 {
        Seq::empty()
    } else {
        seq![hex_digit(b[0] as int / 16), hex_digit(b[0] as int % 16)] + hex_of(b.drop_first())
    }
}

/// The value of one hex digit byte, either case.
pub open spec fn nibble(c: u8) -> Option<int> {
    if 48 <= c <= 57 {
        Some(c - 48)
    } else if 97 <= c <= 102 {
        Some(c - 87)
    } else if 65 <= c <= 70 {
        Some(c - 55)
    } else {
        None
    }
}

/// The bytes that hex text stands for; `None` for an odd length or a non-hex byte.
pub open spec fn unhex(s: Seq<u8>) -> Option<Seq<u8>>
    decreases s.len(),
{
    if s.len() == 0 {
        Some(Seq::empty())
    } else if s.len() == 1 {
        None
    } else {
        match (nibble(s[0]), nibble(s[1]), unhex(s.subrange(2, s.len() as int))) {
            (Some(h), Some(l), Some(rest)) => Some(seq![(h * 16 + l) as u8] + rest),
            _ => None,
        }
    }
}

/// Decimal digits of a natural number, as ASCII bytes, without leading zeros.
pub open spec fn decimal(n: nat) -> Seq<u8>
    decreases n,
{
    if n < 10 {
        seq![(48 + n) as u8]
    } else {
        decimal(n / 10) + seq![(48 + n % 10) as u8]
    }
}

/// Relies on `sha1::Sha1::digest`: the 20-byte SHA-1 digest of `data`.
#[verifier::external_body]
pub(crate) fn sha1_digest(data: &[u8]) -> (r: Vec<u8>)
    ensures
        r@ == sha1_of(data@),
        r@.len() == 20,
{
    Sha1::digest(data).to_vec()
}

/// Relies on `hex::encode`: two lowercase digits per byte.
#[verifier::external_body]
pub(crate) fn hex_encode(data: &[u8]) -> (r: String)
    ensures
        r@ == hex_of(data@),
{
    hex::encode(data)
}

/// Relies on `hex::decode`: accepts digits of either case in pairs, and fails
/// on an odd length or any other byte.
#[verifier::external_body]
pub(crate) fn hex_decode(text: &[u8]) -> (r: Option<Vec<u8>>)
    ensures
        match r {
            Some(v) => unhex(text@) == Some(v@),
            None => unhex(text@) is None,
        },
{
    hex::decode(text).ok()
}

/// Relies on `flate2::write::ZlibEncoder` at the default level: writing into
/// a `Vec` and finishing the stream do not fail.
#[verifier::external_body]
pub(crate) fn zlib_compress(data: &[u8]) -> (r: Option<Vec<u8>>)
    ensures
        r is Some,
        r matches Some(v) ==> v@ == zlib_of(data@),
{
    let mut encoder = ZlibEncoder::new(Vec::new(), Compression::default());
    encoder.write_all(data).ok()?;
    encoder.finish().ok()
}

/// Relies on `flate2::read::ZlibDecoder`: reads a whole zlib stream out of
/// memory, and fails only on data that is not one.
#[verifier::external_body]
pub(crate) fn zlib_decompress(data: &[u8]) -> (r: Option<Vec<u8>>)
    ensures
        match r {
            Some(v) => inflate_of(data@) == Some(v@),
            None => inflate_of(data@) is None,
        },
{
    let mut decoder = ZlibDecoder::new(data);
    let mut out = Vec::new();
    decoder.read_to_end(&mut out).ok()?;
    Some(out)
}

/// Appends the decimal digits of `n`.
pub fn push_decimal(out: &mut Vec<u8>, n: u64)
    ensures
        final(out)@ == old(out)@ + decimal(n as nat),
    decreases n,
{
    if n >= 10 {
        push_decimal(out, n / 10);
    }
    let d: u8 = (n % 10) as u8;
    out.push(48 + d);
    proof {
        reveal_with_fuel(decimal, 2);
    }
    assert(final(out)@ =~= old(out)@ + decimal(n as nat));
}

/// Lowercase hex text of `data`.
pub fn to_hex(data: &[u8]) -> (r: String)
    ensures
        r@ == hex_of(data@),
{
    hex_encode(data)
}

/// Decodes hex text of either case; `None` on an odd length or a non-hex byte.
pub fn from_hex(text: &[u8]) -> (r: Option<Vec<u8>>)
    ensures
        match r {
            Some(v) => unhex(text@) == Some(v@),
            None => unhex(text@) is None,
        },
{
    hex_decode(text)
}

} // verus!

verus! {

/// The first position at or after `from` that holds `b`, or the length of
/// `s` when there is none.
pub open spec fn find_from(s: Seq<u8>, b: u8, from: int) -> int
    decreases s.len() - from,
{
    if from >= s.len() {
        s.len() as int
    } else if s[from] == b {
        from
    } else {
        find_from(s, b, from + 1)
    }
}

pub proof fn lemma_find_from_bounds(s: Seq<u8>, b: u8, from: int)
    requires
        0 <= from <= s.len(),
    ensures
        from <= find_from(s, b, from) <= s.len(),
        find_from(s, b, from) < s.len() ==> s[find_from(s, b, from)] == b,
        forall|j: int| from <= j < find_from(s, b, from) ==> s[j] != b,
    decreases s.len() - from,
{
    if from < s.len() && s[from] != b {
        lemma_find_from_bounds(s, b, from + 1);
    }
}

/// The position of the first `b` in `s` at or after `from`, or `s.len()`.
pub fn find_byte(s: &[u8], b: u8, from: usize) -> (r: usize)
    requires
        from <= s@.len(),
    ensures
        r as int == find_from(s@, b, from as int),
        from <= r <= s@.len(),
{
    proof {
        lemma_find_from_bounds(s@, b, from as int);
    }
    let mut i: usize = from;
    while i < s.len()
        invariant
            from <= i <= s@.len(),
            find_from(s@, b, i as int) == find_from(s@, b, from as int),
        decreases s@.len() - i,
    {
        if s[i] == b {
            return i;
        }
        i = i + 1;
    }
    i
}

/// Whether two byte sequences are equal.
pub fn bytes_eq(a: &[u8], b: &[u8]) -> (r: bool)
    ensures
        r == (a@ == b@),
{
    if a.len() != b.len() {
        return false;
    }
    let mut i: usize = 0;
    while i < a.len()
        invariant
            a@.len() == b@.len(),
            i <= a@.len(),
            forall|j: int| 0 <= j < i ==> a@[j] == b@[j],
        decreases a@.len() - i,
    {
        if a[i] != b[i] {
            return false;
        }
        i = i + 1;
    }
    assert(a@ =~= b@);
    true
}

/// Copies `s[from..to]` into a new vector.
pub fn copy_range(s: &[u8], from: usize, to: usize) -> (r: Vec<u8>)
    requires
        from <= to <= s@.len(),
    ensures
        r@ == s@.subrange(from as int, to as int),
{
    let mut r: Vec<u8> = Vec::new();
    let mut i: usize = from;
    while i < to
        invariant
            from <= i <= to <= s@.len(),
            r@ == s@.subrange(from as int, i as int),
        decreases to - i,
    {
        r.push(s[i]);
        i = i + 1;
        assert(r@ =~= s@.subrange(from as int, i as int));
    }
    r
}

/// Appends all of `b` to `out`.
pub fn push_all(out: &mut Vec<u8>, b: &[u8])
    ensures
        final(out)@ == old(out)@ + b@,
{
    let mut i: usize = 0;
    while i < b.len()
        invariant
            i <= b@.len(),
            out@ == old(out)@ + b@.subrange(0, i as int),
        decreases b@.len() - i,
    {
        out.push(b[i]);
        i = i + 1;
        assert(out@ =~= old(out)@ + b@.subrange(0, i as int));
    }
    assert(b@.subrange(0, b@.len() as int) =~= b@);
}

} // verus!

verus! {

/// The ASCII byte of the lowercase hex digit for a value below 16.
pub open spec fn hex_byte(n: int) -> u8 {
    if n < 10 {
        (48 + n) as u8
    } else {
        (87 + n) as u8
    }
}

/// Lowercase hex text of a byte sequence as ASCII bytes, high nibble first.
pub open spec fn hex_ascii(b: Seq<u8>) -> Seq<u8>
    decreases b.len(),
{
    if b.len() == 0 {
        Seq::empty()
    } else {
        seq![hex_byte(b[0] as int / 16), hex_byte(b[0] as int % 16)] + hex_ascii(b.drop_first())
    }
}

proof fn lemma_hex_of_ascii(b: Seq<u8>)
    ensures
        hex_of(b).len() == hex_ascii(b).len(),
        vstd::utf8::is_ascii_chars(hex_of(b)),
        forall|i: int| 0 <= i < hex_of(b).len() ==> #[trigger] hex_of(b)[i] as u8 == hex_ascii(b)[i],
    decreases b.len(),
{
    if b.len() > 0 {
        lemma_hex_of_ascii(b.drop_first());
        let h = hex_of(b);
        let a = hex_ascii(b);
        let hr = hex_of(b.drop_first());
        let ar = hex_ascii(b.drop_first());
        let d0 = b[0] as int / 16;
        let d1 = b[0] as int % 16;
        assert(hex_digit(d0) as u8 == hex_byte(d0)) by {
            assert(0 <= d0 < 16);
        }
        assert(hex_digit(d1) as u8 == hex_byte(d1)) by {
            assert(0 <= d1 < 16);
        }
        assert('\0' <= hex_digit(d0) <= '\u{7f}');
        assert('\0' <= hex_digit(d1) <= '\u{7f}');
        assert forall|i: int| 0 <= i < h.len() implies '\0' <= #[trigger] h[i] <= '\u{7f}' && h[i] as u8 == a[i] by {
            if i >= 2 {
                assert(h[i] == hr[i - 2]);
                assert(a[i] == ar[i - 2]);
            }
        }
    }
}

/// Lowercase hex text of `data` as ASCII bytes.
pub fn hex_text(data: &[u8]) -> (r: Vec<u8>)
    ensures
        r@ == hex_ascii(data@),
{
    let s = hex_encode(data);
    proof {
        lemma_hex_of_ascii(data@);
        vstd::utf8::is_ascii_chars_encode_utf8(s@);
    }
    let b = s.as_str().as_bytes();
    let r = copy_range(b, 0, b.len());
    assert(r@ =~= hex_ascii(data@));
    r
}

} // verus!

verus! {

/// Searching a suffix is searching the whole from further on.
pub proof fn lemma_find_from_shift(s: Seq<u8>, b: u8, a: int, from: int)
    requires
        0 <= a <= s.len(),
        0 <= from <= s.len() - a,
    ensures
        find_from(s.subrange(a, s.len() as int), b, from) == find_from(s, b, a + from) - a,
    decreases s.len() - a - from,
{
    if from < s.len() - a {
        lemma_find_from_shift(s, b, a, from + 1);
    }
}

} // verus!

verus! {

/// `find_from` lands on the first `b` at or after `from`.
pub proof fn lemma_find_from_at(s: Seq<u8>, b: u8, p: int, from: int)
    requires
        0 <= from <= p < s.len(),
        s[p] == b,
        forall|j: int| from <= j < p ==> s[j] != b,
    ensures
        find_from(s, b, from) == p,
    decreases p - from,
{
    if from < p {
        lemma_find_from_at(s, b, p, from + 1);
    }
}

} // verus!
