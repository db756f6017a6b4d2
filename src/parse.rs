//! Byte scanning, big-endian integers, decimal digits and UTF-8 text:
//! the small readers and writers that every codec builds on.

use vstd::prelude::*;
use crate::types::{GitError, GitResult};

verus! {

/// The position of the first `end` byte in `s` at or after `from`.
pub open spec fn delim_at(s: Seq<u8>, from: int, end: u8) -> Option<int>
    decreases s.len() - from,
{
    if from < 0 || from >= s.len() {
        None
    } else if s[from] == end {
        Some(from)
    } else {
        delim_at(s, from + 1, end)
    }
}

/// The result of scanning `s` from `pos` up to, and not including, `end`:
/// the bytes before it and the position just after it.
pub open spec fn scan_until(s: Seq<u8>, pos: int, end: u8) -> GitResult<(Seq<u8>, int)> {
    match delim_at(s, pos, end) {
        Some(j) => Ok((s.subrange(pos, j), j + 1)),
        None => Err(GitError::Io),
    }
}

/// Scanning stops at the first `end` byte when every byte before it differs.
pub proof fn lemma_delim_at(s: Seq<u8>, from: int, q: int, end: u8)
    requires
        0 <= from <= q < s.len(),
        s[q] == end,
        forall|k: int| from <= k < q ==> s[k] != end,
    ensures
        delim_at(s, from, end) == Some(q),
    decreases q - from,
{
    if from < q {
        lemma_delim_at(s, from + 1, q, end);
    }
}

/// Where scanning finds an `end` byte, it lies in range and nothing before it is `end`.
pub proof fn lemma_delim_at_found(s: Seq<u8>, from: int, end: u8)
    requires
        delim_at(s, from, end) is Some,
    ensures
        from <= delim_at(s, from, end)->0 < s.len(),
        s[delim_at(s, from, end)->0] == end,
        forall|k: int| from <= k < delim_at(s, from, end)->0 ==> s[k] != end,
    decreases s.len() - from,
{
    if s[from] != end {
        lemma_delim_at_found(s, from + 1, end);
    }
}

/// Reads from `data` at `pos` up to, and not including, the byte `end`.
/// Returns the bytes read and the position just past the `end` byte; fails
/// with `Io` when no `end` byte follows `pos`.
pub fn read_until(data: &[u8], pos: usize, end: u8) -> (r: GitResult<(Vec<u8>, usize)>)
    requires
        pos <= data@.len(),
    ensures
        match r {
            Ok((v, n)) => scan_until(data@, pos as int, end) == Ok::<(Seq<u8>, int), GitError>((v@, n as int)),
            Err(e) => scan_until(data@, pos as int, end) == Err::<(Seq<u8>, int), GitError>(e),
        },
        r matches Ok((v, n)) ==> pos < n <= data@.len(),
{
    let mut content: Vec<u8> = Vec::new();
    let mut i: usize = pos;
    while i < data.len()
        invariant
            pos <= i <= data@.len(),
            content@ == data@.subrange(pos as int, i as int),
            delim_at(data@, pos as int, end) == delim_at(data@, i as int, end),
        decreases data@.len() - i,
    {
        if data[i] == end {
            return Ok((content, i + 1));
        }
        content.push(data[i]);
        i = i + 1;
        assert(content@ =~= data@.subrange(pos as int, i as int));
    }
    Err(GitError::Io)
}

/// The big-endian value of the four bytes of `s` at `p`.
pub open spec fn be32_at(s: Seq<u8>, p: int) -> u32 {
    ((s[p] as u32) << 24u32) | ((s[p + 1] as u32) << 16u32) | ((s[p + 2] as u32) << 8u32) | (s[p + 3] as u32)
}

/// The big-endian value of the two bytes of `s` at `p`.
pub open spec fn be16_at(s: Seq<u8>, p: int) -> u16 {
    ((s[p] as u16) << 8u16) | (s[p + 1] as u16)
}

/// The four big-endian bytes of `x`.
pub open spec fn be32_bytes(x: u32) -> Seq<u8> {
    seq![(x >> 24u32) as u8, (x >> 16u32) as u8, (x >> 8u32) as u8, x as u8]
}

/// The two big-endian bytes of `x`.
pub open spec fn be16_bytes(x: u16) -> Seq<u8> {
    seq![(x >> 8u16) as u8, x as u8]
}

/// Reading back the bytes of a `u32` gives the number.
pub proof fn lemma_be32_round_trip(x: u32, s: Seq<u8>, p: int)
    requires
        0 <= p,
        p + 4 <= s.len(),
        s.subrange(p, p + 4) == be32_bytes(x),
    ensures
        be32_at(s, p) == x,
{
    assert(s[p] == be32_bytes(x)[0]);
    assert(s[p + 1] == be32_bytes(x)[1]);
    assert(s[p + 2] == be32_bytes(x)[2]);
    assert(s[p + 3] == be32_bytes(x)[3]);
    assert((((x >> 24u32) as u8 as u32) << 24u32) | (((x >> 16u32) as u8 as u32) << 16u32)
        | (((x >> 8u32) as u8 as u32) << 8u32) | (x as u8 as u32) == x) by (bit_vector);
}

/// Reading back the bytes of a `u16` gives the number.
pub proof fn lemma_be16_round_trip(x: u16, s: Seq<u8>, p: int)
    requires
        0 <= p,
        p + 2 <= s.len(),
        s.subrange(p, p + 2) == be16_bytes(x),
    ensures
        be16_at(s, p) == x,
{
    assert(s[p] == be16_bytes(x)[0]);
    assert(s[p + 1] == be16_bytes(x)[1]);
    assert((((x >> 8u16) as u8 as u16) << 8u16) | (x as u8 as u16) == x) by (bit_vector);
}

/// Reads a big-endian `u32` from `data` at `pos`.
pub fn read_u32_be(data: &[u8], pos: usize) -> (r: u32)
    requires
        pos + 4 <= data@.len(),
    ensures
        r == be32_at(data@, pos as int),
{
    ((data[pos] as u32) << 24u32) | ((data[pos + 1] as u32) << 16u32) | ((data[pos + 2] as u32) << 8u32)
        | (data[pos + 3] as u32)
}

/// Reads a big-endian `u16` from `data` at `pos`.
pub fn read_u16_be(data: &[u8], pos: usize) -> (r: u16)
    requires
        pos + 2 <= data@.len(),
    ensures
        r == be16_at(data@, pos as int),
{
    ((data[pos] as u16) << 8u16) | (data[pos + 1] as u16)
}

/// Appends the big-endian bytes of `x` to `out`.
pub fn push_u32_be(out: &mut Vec<u8>, x: u32)
    ensures
        final(out)@ == old(out)@ + be32_bytes(x),
{
    out.push((x >> 24u32) as u8);
    out.push((x >> 16u32) as u8);
    out.push((x >> 8u32) as u8);
    out.push(x as u8);
    assert(final(out)@ =~= old(out)@ + be32_bytes(x));
}

/// Appends the big-endian bytes of `x` to `out`.
pub fn push_u16_be(out: &mut Vec<u8>, x: u16)
    ensures
        final(out)@ == old(out)@ + be16_bytes(x),
{
    out.push((x >> 8u16) as u8);
    out.push(x as u8);
    assert(final(out)@ =~= old(out)@ + be16_bytes(x));
}

/// Appends every byte of `b` to `out`.
pub fn push_all(out: &mut Vec<u8>, b: &[u8])
    ensures
        final(out)@ == old(out)@ + b@,
{
    let mut i: usize = 0;
    while i < b.len()
        invariant
            i <= b@.len(),
            out@ == old(out)@ + b@.subrange(0, i as int),
        decreases b@.len() - i,
    {
        out.push(b[i]);
        i = i + 1;
        assert(out@ =~= old(out)@ + b@.subrange(0, i as int));
    }
    assert(b@.subrange(0, b@.len() as int) =~= b@);
}

} // verus!

verus! {

/// Relies on `String::from_utf8`: it succeeds exactly on valid UTF-8 and the
/// string then holds the characters that the bytes encode.
#[verifier::external_body]
pub(crate) fn utf8_to_string(v: Vec<u8>) -> (r: Option<String>)
    ensures
        r is Some <==> vstd::utf8::valid_utf8(v@),
        r matches Some(s) ==> s@ == vstd::utf8::decode_utf8(v@),
{
    String::from_utf8(v).ok()
}

/// The bytes of a string: its UTF-8 encoding.
pub fn string_bytes(s: &String) -> (r: Vec<u8>)
    ensures
        r@ == vstd::utf8::encode_utf8(s@),
{
    let b = s.as_str().as_bytes();
    let mut out: Vec<u8> = Vec::new();
    push_all(&mut out, b);
    assert(out@ =~= b@);
    out
}

/// Decodes UTF-8 bytes into a string, failing with `InvalidUtf8`.
pub fn decode_text(v: Vec<u8>) -> (r: GitResult<String>)
    ensures
        r is Ok <==> vstd::utf8::valid_utf8(v@),
        r matches Ok(s) ==> s@ == vstd::utf8::decode_utf8(v@),
        r matches Err(e) ==> e == GitError::InvalidUtf8,
{
    match utf8_to_string(v) {
        Some(s) => Ok(s),
        None => Err(GitError::InvalidUtf8),
    }
}

/// The ASCII decimal digits of `n`, most significant first.
pub open spec fn dec_digits(n: nat) -> Seq<u8>
    decreases n,
{
    if n < 10 {
        seq![(48 + n) as u8]
    } else {
        dec_digits(n / 10).push((48 + n % 10) as u8)
    }
}

/// Whether every byte of `s` is an ASCII decimal digit.
pub open spec fn all_digits(s: Seq<u8>) -> bool {
    forall|i: int| 0 <= i < s.len() ==> 48 <= #[trigger] s[i] <= 57
}

/// The number that the ASCII decimal digits `s` spell.
pub open spec fn digits_value(s: Seq<u8>) -> nat
    decreases s.len(),
{
    if s.len() == 0 {
        0
    } else {
        digits_value(s.drop_last()) * 10 + (s.last() - 48) as nat
    }
}

/// The decimal digits of a number are digits and spell it.
pub proof fn lemma_dec_digits(n: nat)
    ensures
        all_digits(dec_digits(n)),
        dec_digits(n).len() > 0,
        digits_value(dec_digits(n)) == n,
    decreases n,
{
    if n >= 10 {
        lemma_dec_digits(n / 10);
        let d = dec_digits(n);
        assert(d.drop_last() =~= dec_digits(n / 10));
        assert(d.last() == (48 + n % 10) as u8);
        assert((d.last() - 48) as nat == n % 10);
        assert(digits_value(d) == digits_value(dec_digits(n / 10)) * 10 + n % 10);
        assert(n == (n / 10) * 10 + n % 10);
    } else {
        let d = dec_digits(n);
        assert(d.drop_last() =~= Seq::<u8>::empty());
        assert(digits_value(d.drop_last()) == 0);
        assert(d.last() == (48 + n) as u8);
    }
}

/// Appends the decimal digits of `n` to `out`.
pub fn push_decimal(out: &mut Vec<u8>, n: usize)
    ensures
        final(out)@ == old(out)@ + dec_digits(n as nat),
    decreases n,
{
    if n >= 10 {
        push_decimal(out, n / 10);
    }
    out.push((48 + n % 10) as u8);
    assert(final(out)@ =~= old(out)@ + dec_digits(n as nat));
}

/// Parses a non-empty run of ASCII decimal digits as a `usize`; anything
/// else, or a value too large for `usize`, fails with `ParseInt`.
pub fn parse_decimal(s: &[u8]) -> (r: GitResult<usize>)
    ensures
        r is Ok <==> (s@.len() > 0 && all_digits(s@) && digits_value(s@) <= usize::MAX),
        r matches Ok(n) ==> n == digits_value(s@),
        r matches Err(e) ==> e == GitError::ParseInt,
{
    if s.len() == 0 {
        return Err(GitError::ParseInt);
    }
    let mut v: usize = 0;
    let mut i: usize = 0;
    while i < s.len()
        invariant
            i <= s@.len(),
            all_digits(s@.subrange(0, i as int)),
            v == digits_value(s@.subrange(0, i as int)),
        decreases s@.len() - i,
    {
        let b = s[i];
        assert(s@.subrange(0, i as int + 1).drop_last() =~= s@.subrange(0, i as int));
        if b < 48 || b > 57 {
            assert(!all_digits(s@)) by {
                assert(s@[i as int] == b);
            }
            return Err(GitError::ParseInt);
        }
        let d = (b - 48) as usize;
        if v > (usize::MAX - d) / 10 {
            proof {
                lemma_digits_value_prefix(s@, i as int + 1);
            }
            return Err(GitError::ParseInt);
        }
        v = v * 10 + d;
        i = i + 1;
    }
    assert(s@.subrange(0, s@.len() as int) =~= s@);
    Ok(v)
}

/// The value of a digit string is at least the value of any prefix.
proof fn lemma_digits_value_prefix(s: Seq<u8>, k: int)
    requires
        0 <= k <= s.len(),
    ensures
        digits_value(s.subrange(0, k)) <= digits_value(s),
    decreases s.len() - k,
{
    if k < s.len() {
        lemma_digits_value_prefix(s, k + 1);
        assert(s.subrange(0, k + 1).drop_last() =~= s.subrange(0, k));
        let x = digits_value(s.subrange(0, k));
        let y = digits_value(s.subrange(0, k + 1));
        assert(y == x * 10 + (s.subrange(0, k + 1).last() - 48) as nat);
        assert(x <= x * 10 + (s.subrange(0, k + 1).last() - 48) as nat) by (nonlinear_arith);
    } else {
        assert(s.subrange(0, k) =~= s);
    }
}

} // verus!

verus! {

/// The characters that ASCII bytes stand for.
pub open spec fn ascii_chars(b: Seq<u8>) -> Seq<char> {
    b.map_values(|x: u8| x as char)
}

/// ASCII bytes are valid UTF-8 and decode to one character per byte.
pub proof fn lemma_ascii_text(b: Seq<u8>)
    requires
        forall|i: int| 0 <= i < b.len() ==> #[trigger] b[i] < 128,
    ensures
        vstd::utf8::valid_utf8(b),
        vstd::utf8::decode_utf8(b) == ascii_chars(b),
        vstd::utf8::encode_utf8(ascii_chars(b)) == b,
{
    let c = ascii_chars(b);
    assert forall|i: int| 0 <= i < c.len() implies '\0' <= #[trigger] c[i] <= '\u{7f}' by {
        assert(b[i] < 128);
    }
    vstd::utf8::is_ascii_chars_encode_utf8(c);
    let e = vstd::utf8::encode_utf8(c);
    assert forall|i: int| 0 <= i < b.len() implies e[i] == b[i] by {
        assert(c[i] as u8 == e[i]);
        assert(b[i] < 128);
        assert((b[i] as char) as u8 == b[i]);
    }
    assert(e =~= b);
    vstd::utf8::encode_utf8_valid_utf8(c);
    vstd::utf8::encode_utf8_decode_utf8(c);
}

} // verus!

verus! {

/// The position of the first `end` byte at or after `pos` in `data`, if any.
pub fn find_byte(data: &[u8], pos: usize, end: u8) -> (r: Option<usize>)
    requires
        pos <= data@.len(),
    ensures
        match r {
            Some(j) => delim_at(data@, pos as int, end) == Some(j as int),
            None => delim_at(data@, pos as int, end) is None,
        },
{
    let mut i: usize = pos;
    while i < data.len()
        invariant
            pos <= i <= data@.len(),
            delim_at(data@, pos as int, end) == delim_at(data@, i as int, end),
        decreases data@.len() - i,
    {
        if data[i] == end {
            return Some(i);
        }
        i = i + 1;
    }
    None
}

} // verus!

verus! {

/// Encoding two character runs one after the other appends their bytes.
pub proof fn lemma_encode_concat(a: Seq<char>, b: Seq<char>)
    ensures
        vstd::utf8::encode_utf8(a + b) == vstd::utf8::encode_utf8(a) + vstd::utf8::encode_utf8(b),
    decreases a.len(),
{
    if a.len() == 0 {
        assert(a + b =~= b);
        assert(vstd::utf8::encode_utf8(a) + vstd::utf8::encode_utf8(b) =~= vstd::utf8::encode_utf8(b));
    } else {
        lemma_encode_concat(a.drop_first(), b);
        assert((a + b).drop_first() =~= a.drop_first() + b);
        assert((a + b)[0] == a[0]);
        assert(vstd::utf8::encode_utf8(a + b) =~= vstd::utf8::encode_utf8(a) + vstd::utf8::encode_utf8(
            b,
        ));
    }
}

/// The string made of the ASCII bytes `prefix`, then `s`, then the ASCII
/// bytes `suffix`.
pub fn surround_text(prefix: &[u8], s: &String, suffix: &[u8]) -> (r: String)
    requires
        forall|i: int| 0 <= i < prefix@.len() ==> #[trigger] prefix@[i] < 128,
        forall|i: int| 0 <= i < suffix@.len() ==> #[trigger] suffix@[i] < 128,
    ensures
        r@ == ascii_chars(prefix@) + s@ + ascii_chars(suffix@),
{
    let mut v: Vec<u8> = Vec::new();
    push_all(&mut v, prefix);
    push_all(&mut v, string_bytes(s).as_slice());
    push_all(&mut v, suffix);
    let ghost chars = ascii_chars(prefix@) + s@ + ascii_chars(suffix@);
    proof {
        lemma_ascii_text(prefix@);
        lemma_ascii_text(suffix@);
        lemma_encode_concat(ascii_chars(prefix@), s@);
        lemma_encode_concat(ascii_chars(prefix@) + s@, ascii_chars(suffix@));
        assert(v@ =~= vstd::utf8::encode_utf8(chars));
        vstd::utf8::encode_utf8_valid_utf8(chars);
        vstd::utf8::encode_utf8_decode_utf8(chars);
    }
    match decode_text(v) {
        Ok(t) => t,
        Err(_) => String::new(),
    }
}

} // verus!

verus! {

/// Whether `a` and `b` hold the same bytes.
pub fn bytes_equal(a: &[u8], b: &[u8]) -> (r: bool)
    ensures
        r == (a@ == b@),
{
    if a.len() != b.len() {
        return false;
    }
    let mut i: usize = 0;
    while i < a.len()
        invariant
            i <= a@.len(),
            a@.len() == b@.len(),
            forall|k: int| 0 <= k < i ==> a@[k] == b@[k],
        decreases a@.len() - i,
    {
        if a[i] != b[i] {
            return false;
        }
        i = i + 1;
    }
    assert(a@ =~= b@);
    true
}

} // verus!
