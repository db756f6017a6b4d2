//! The content-addressed object store: headers, hashes, compression,
//! and the hexadecimal names and paths of stored objects.

use vstd::prelude::*;
use crate::parse::{
    all_digits, ascii_chars, bytes_equal, dec_digits, decode_text, digits_value, lemma_ascii_text,
    lemma_delim_at, lemma_dec_digits, parse_decimal, push_all, push_decimal, read_until,
    scan_until,
};
use crate::types::{GitError, GitResult};

verus! {

/// The four kinds of stored object.
#[derive(Debug, Clone, Copy, PartialEq, Eq, Structural)]
pub enum ObjectType {
    Blob,
    Tree,
    Commit,
    Tag,
}

/// A typed byte payload, addressed in the store by the hash of its
/// header and payload.
pub struct Object {
    pub kind: ObjectType,
    pub data: Vec<u8>,
}

impl View for Object {
    type V = (ObjectType, Seq<u8>);

    open spec fn view(&self) -> (ObjectType, Seq<u8>) {
        (self.kind, self.data@)
    }
}

/// What the store keeps for one object: its hash and its compressed bytes.
pub struct ObjectFile {
    pub hash: [u8; 20],
    pub bytes: Vec<u8>,
}

/// A name for the SHA-1 digest of a byte sequence.
pub uninterp spec fn sha1_of(data: Seq<u8>) -> Seq<u8>;

/// A name for the zlib stream that compresses a byte sequence.
pub uninterp spec fn zlib_of(data: Seq<u8>) -> Seq<u8>;

/// A name for what a zlib stream decompresses to, if it is one.
pub uninterp spec fn inflate_of(z: Seq<u8>) -> Option<Seq<u8>>;

/// Relies on sha1's `Sha1::update` and `Sha1::digest`: the 20-byte SHA-1
/// digest of `data`.
#[verifier::external_body]
pub(crate) fn sha1_digest(data: &[u8]) -> (r: [u8; 20])
    ensures
        r@ == sha1_of(data@),
{
    sha1::Sha1::from(data).digest().bytes()
}

/// Relies on flate2's `write::ZlibEncoder` at the default level: the zlib
/// stream of `data`. The encoder writes into memory, which cannot fail.
#[verifier::external_body]
fn zlib_compress(data: &[u8]) -> (r: Option<Vec<u8>>)
    ensures
        r is Some,
        r matches Some(z) ==> z@ == zlib_of(data@),
{
    let mut enc = flate2::write::ZlibEncoder::new(Vec::new(), flate2::Compression::default());
    match std::io::Write::write_all(&mut enc, data) {
        Ok(()) => enc.finish().ok(),
        Err(_) => None,
    }
}

/// Relies on flate2's `read::ZlibDecoder`: the bytes that a zlib stream
/// holds, which for a stream made by the encoder are the encoded bytes.
#[verifier::external_body]
fn zlib_decompress(z: &[u8]) -> (r: Option<Vec<u8>>)
    ensures
        r matches Some(v) ==> inflate_of(z@) == Some(v@),
        r is None ==> inflate_of(z@) is None,
        forall|s: Seq<u8>| z@ == zlib_of(s) ==> r is Some && r.unwrap()@ == s,
{
    let mut dec = flate2::read::ZlibDecoder::new(z);
    let mut out: Vec<u8> = Vec::new();
    match std::io::Read::read_to_end(&mut dec, &mut out) {
        Ok(_) => Some(out),
        Err(_) => None,
    }
}

/// The header word of each kind.
pub open spec fn kind_name(k: ObjectType) -> Seq<u8> {
    match k {
        ObjectType::Blob => seq![98u8, 108u8, 111u8, 98u8],
        ObjectType::Tree => seq![116u8, 114u8, 101u8, 101u8],
        ObjectType::Commit => seq![99u8, 111u8, 109u8, 109u8, 105u8, 116u8],
        ObjectType::Tag => seq![116u8, 97u8, 103u8],
    }
}

/// The kind whose header word is `s`, if any.
pub open spec fn kind_of_name(s: Seq<u8>) -> Option<ObjectType> {
    if s == kind_name(ObjectType::Blob) {
        Some(ObjectType::Blob)
    } else if s == kind_name(ObjectType::Tree) {
        Some(ObjectType::Tree)
    } else if s == kind_name(ObjectType::Commit) {
        Some(ObjectType::Commit)
    } else if s == kind_name(ObjectType::Tag) {
        Some(ObjectType::Tag)
    } else {
        None
    }
}

/// The uncompressed form of an object: `"{kind} {length}\0"` then the payload.
pub open spec fn loose_bytes(k: ObjectType, data: Seq<u8>) -> Seq<u8> {
    kind_name(k) + seq![32u8] + dec_digits(data.len()) + seq![0u8] + data
}

/// The hash that identifies an object.
pub open spec fn object_hash(k: ObjectType, data: Seq<u8>) -> Seq<u8> {
    sha1_of(loose_bytes(k, data))
}

/// Parses the uncompressed form of an object: a space-terminated kind word,
/// a NUL-terminated decimal length, then that many payload bytes (any bytes
/// after them are ignored).
pub open spec fn parse_loose(s: Seq<u8>) -> GitResult<(ObjectType, Seq<u8>)> {
    match scan_until(s, 0, 32u8) {
        Err(e) => Err(e),
        Ok((word, p)) => match kind_of_name(word) {
            None => Err(GitError::CorruptObject),
            Some(k) => match scan_until(s, p, 0u8) {
                Err(e) => Err(e),
                Ok((len, q)) => if !(len.len() > 0 && all_digits(len) && digits_value(len)
                    <= usize::MAX) {
                    Err(GitError::ParseInt)
                } else if q + digits_value(len) > s.len() {
                    Err(GitError::Io)
                } else {
                    Ok((k, s.subrange(q, q + digits_value(len))))
                },
            },
        },
    }
}

/// Parsing the uncompressed form of an object gives back its kind and payload.
pub proof fn lemma_loose_round_trip(k: ObjectType, data: Seq<u8>)
    requires
        data.len() <= usize::MAX,
    ensures
        parse_loose(loose_bytes(k, data)) == Ok::<(ObjectType, Seq<u8>), GitError>((k, data)),
{
    let name = kind_name(k);
    let digits = dec_digits(data.len());
    let s = loose_bytes(k, data);
    lemma_dec_digits(data.len());
    let p = name.len() as int;
    let q = p + 1 + digits.len();
    assert(s[p] == 32u8);
    assert forall|i: int| 0 <= i < p implies s[i] != 32u8 by {
        assert(s[i] == name[i]);
    }
    lemma_delim_at(s, 0, p, 32u8);
    assert(s.subrange(0, p) =~= name);
    assert(s[q] == 0u8);
    assert forall|i: int| p + 1 <= i < q implies s[i] != 0u8 by {
        assert(s[i] == digits[i - p - 1]);
    }
    lemma_delim_at(s, p + 1, q, 0u8);
    assert(s.subrange(p + 1, q) =~= digits);
    assert(s.subrange(q + 1, q + 1 + data.len()) =~= data);
}

impl ObjectType {
    /// The header word of this kind.
    pub fn name_bytes(&self) -> (r: Vec<u8>)
        ensures
            r@ == kind_name(*self),
    {
        let r = match self {
            ObjectType::Blob => vec![98u8, 108u8, 111u8, 98u8],
            ObjectType::Tree => vec![116u8, 114u8, 101u8, 101u8],
            ObjectType::Commit => vec![99u8, 111u8, 109u8, 109u8, 105u8, 116u8],
            ObjectType::Tag => vec![116u8, 97u8, 103u8],
        };
        assert(r@ =~= kind_name(*self));
        r
    }
}

/// The kind whose header word is `word`, if any.
fn kind_from_name(word: &[u8]) -> (r: Option<ObjectType>)
    ensures
        r == kind_of_name(word@),
{
    if bytes_equal(word, ObjectType::Blob.name_bytes().as_slice()) {
        Some(ObjectType::Blob)
    } else if bytes_equal(word, ObjectType::Tree.name_bytes().as_slice()) {
        Some(ObjectType::Tree)
    } else if bytes_equal(word, ObjectType::Commit.name_bytes().as_slice()) {
        Some(ObjectType::Commit)
    } else if bytes_equal(word, ObjectType::Tag.name_bytes().as_slice()) {
        Some(ObjectType::Tag)
    } else {
        None
    }
}

impl Object {
    /// The uncompressed form of this object: header, then payload.
    pub fn loose_bytes(&self) -> (r: Vec<u8>)
        ensures
            r@ == loose_bytes(self.kind, self.data@),
    {
        let mut out = self.kind.name_bytes();
        out.push(32u8);
        push_decimal(&mut out, self.data.len());
        out.push(0u8);
        push_all(&mut out, self.data.as_slice());
        assert(out@ =~= loose_bytes(self.kind, self.data@));
        out
    }

    /// The hash that identifies this object in the store.
    pub fn hash(&self) -> (r: [u8; 20])
        ensures
            r@ == object_hash(self.kind, self.data@),
    {
        let loose = self.loose_bytes();
        sha1_digest(loose.as_slice())
    }

    /// Prepares this object for the store: its hash and its compressed
    /// bytes. It always succeeds, and writing the same object twice gives
    /// the same hash and the same file.
    pub fn write(&self) -> (r: GitResult<ObjectFile>)
        ensures
            r is Ok,
            r matches Ok(f) ==> f.hash@ == object_hash(self.kind, self.data@) && f.bytes@
                == zlib_of(loose_bytes(self.kind, self.data@)),
    {
        let loose = self.loose_bytes();
        let hash = sha1_digest(loose.as_slice());
        match zlib_compress(loose.as_slice()) {
            Some(bytes) => Ok(ObjectFile { hash, bytes }),
            None => Err(GitError::Io),
        }
    }
}

/// Parses the uncompressed form of an object.
pub fn parse_object(s: &[u8]) -> (r: GitResult<Object>)
    ensures
        match r {
            Ok(o) => parse_loose(s@) == Ok::<(ObjectType, Seq<u8>), GitError>(o@),
            Err(e) => parse_loose(s@) == Err::<(ObjectType, Seq<u8>), GitError>(e),
        },
{
    let (word, p) = read_until(s, 0, 32u8)?;
    let kind = match kind_from_name(word.as_slice()) {
        Some(k) => k,
        None => return Err(GitError::CorruptObject),
    };
    let (len_bytes, q) = read_until(s, p, 0u8)?;
    let len = parse_decimal(len_bytes.as_slice())?;
    if len > s.len() - q {
        return Err(GitError::Io);
    }
    let mut data: Vec<u8> = Vec::new();
    push_all(&mut data, vstd::slice::slice_subrange(s, q, q + len));
    Ok(Object { kind, data })
}

/// Reads a stored object from the bytes of its file: decompresses them and
/// parses the result. A file that is not a zlib stream fails with `Io`.
/// Reading what `Object::write` stored for an object gives that object back.
pub fn read_obj(stored: &[u8]) -> (r: GitResult<Object>)
    ensures
        match inflate_of(stored@) {
            None => r == Err::<Object, GitError>(GitError::Io),
            Some(s) => match r {
                Ok(o) => parse_loose(s) == Ok::<(ObjectType, Seq<u8>), GitError>(o@),
                Err(e) => parse_loose(s) == Err::<(ObjectType, Seq<u8>), GitError>(e),
            },
        },
        forall|k: ObjectType, d: Seq<u8>|
            d.len() <= usize::MAX && stored@ == #[trigger] zlib_of(loose_bytes(k, d)) ==> (r matches Ok(
                o) && o@ == (k, d)),
{
    match zlib_decompress(stored) {
        None => Err(GitError::Io),
        Some(loose) => {
            let r = parse_object(loose.as_slice());
            proof {
                assert forall|k: ObjectType, d: Seq<u8>|
                    d.len() <= usize::MAX && stored@ == #[trigger] zlib_of(loose_bytes(k, d)) implies (
                    r matches Ok(o) && o@ == (k, d)) by {
                    lemma_loose_round_trip(k, d);
                }
            }
            r
        },
    }
}


/// Writing an object is a function of its kind and payload: the same
/// object gets the same hash and the same stored bytes every time.
pub proof fn lemma_write_deterministic(a: Object, b: Object)
    requires
        a@ == b@,
    ensures
        object_hash(a.kind, a.data@) == object_hash(b.kind, b.data@),
        zlib_of(loose_bytes(a.kind, a.data@)) == zlib_of(loose_bytes(b.kind, b.data@)),
{
}

/// The lowercase hexadecimal digit for `n` (below 16).
pub open spec fn hex_digit(n: int) -> u8 {
    if n < 10 {
        (48 + n) as u8
    } else {
        (87 + n) as u8
    }
}

/// The value of a lowercase hexadecimal digit.
pub open spec fn hex_value(b: u8) -> int {
    if b <= 57 {
        b - 48
    } else {
        b - 87
    }
}

/// Whether `b` is a lowercase hexadecimal digit.
pub open spec fn is_hex_digit(b: u8) -> bool {
    (48 <= b <= 57) || (97 <= b <= 102)
}

/// The lowercase hexadecimal text of a byte sequence, two digits per byte.
pub open spec fn hex_of(s: Seq<u8>) -> Seq<u8>
    decreases s.len(),
{
    if s.len() == 0 {
        Seq::empty()
    } else {
        hex_of(s.drop_last()) + seq![hex_digit(s.last() as int / 16), hex_digit(s.last() as int % 16)]
    }
}

proof fn lemma_hex_of_ascii(s: Seq<u8>)
    ensures
        hex_of(s).len() == 2 * s.len(),
        forall|i: int| 0 <= i < hex_of(s).len() ==> #[trigger] hex_of(s)[i] < 128,
    decreases s.len(),
{
    if s.len() > 0 {
        lemma_hex_of_ascii(s.drop_last());
    }
}

/// Appends the hexadecimal text of `b` to `out`.
fn push_hex(out: &mut Vec<u8>, b: &[u8])
    ensures
        final(out)@ == old(out)@ + hex_of(b@),
{
    let mut i: usize = 0;
    assert(b@.take(0) =~= Seq::<u8>::empty());
    assert(out@ =~= old(out)@ + hex_of(b@.take(0)));
    while i < b.len()
        invariant
            i <= b@.len(),
            out@ == old(out)@ + hex_of(b@.take(i as int)),
        decreases b@.len() - i,
    {
        let x = b[i];
        let hi = x / 16;
        let lo = x % 16;
        out.push(if hi < 10 { 48 + hi } else { 87 + hi });
        out.push(if lo < 10 { 48 + lo } else { 87 + lo });
        proof {
            assert(b@.take(i + 1).drop_last() =~= b@.take(i as int));
            assert(b@.take(i + 1).last() == x);
        }
        i = i + 1;
        assert(out@ =~= old(out)@ + hex_of(b@.take(i as int)));
    }
    assert(b@.take(b@.len() as int) =~= b@);
}

/// The 40-digit lowercase hexadecimal text of a hash.
pub fn hash_to_hex(hash: &[u8; 20]) -> (r: String)
    ensures
        r@ == ascii_chars(hex_of(hash@)),
{
    let mut v: Vec<u8> = Vec::new();
    push_hex(&mut v, hash.as_slice());
    proof {
        lemma_hex_of_ascii(hash@);
        lemma_ascii_text(v@);
    }
    match decode_text(v) {
        Ok(s) => s,
        Err(_) => String::new(),
    }
}

/// The store directory that holds an object: its first two hex digits.
pub fn dir_for_hash(hash: &[u8; 20]) -> (r: String)
    ensures
        r@ == ascii_chars(hex_of(hash@).take(2)),
{
    let mut v: Vec<u8> = Vec::new();
    push_hex(&mut v, vstd::slice::slice_subrange(hash.as_slice(), 0, 1));
    proof {
        let h = hash@;
        assert(h.subrange(0, 1).drop_last() =~= Seq::<u8>::empty());
        lemma_hex_prefix(h, 1);
        lemma_hex_of_ascii(h.subrange(0, 1));
        lemma_ascii_text(v@);
    }
    match decode_text(v) {
        Ok(s) => s,
        Err(_) => String::new(),
    }
}

/// The path of an object's file within the store: the first two hex
/// digits, a slash, then the other thirty-eight.
pub fn path_for_hash(hash: &[u8; 20]) -> (r: String)
    ensures
        r@ == ascii_chars(hex_of(hash@).take(2) + seq![47u8] + hex_of(hash@).skip(2)),
{
    let mut v: Vec<u8> = Vec::new();
    push_hex(&mut v, vstd::slice::slice_subrange(hash.as_slice(), 0, 1));
    v.push(47u8);
    push_hex(&mut v, vstd::slice::slice_subrange(hash.as_slice(), 1, 20));
    proof {
        let h = hash@;
        lemma_hex_prefix(h, 1);
        lemma_hex_split(h, 1);
        lemma_hex_of_ascii(h.subrange(0, 1));
        lemma_hex_of_ascii(h.subrange(1, 20));
        assert(v@ =~= hex_of(h).take(2) + seq![47u8] + hex_of(h).skip(2));
        lemma_hex_of_ascii(h);
        assert forall|i: int| 0 <= i < v@.len() implies #[trigger] v@[i] < 128 by {
            if i < 2 {
                assert(v@[i] == hex_of(h)[i]);
            } else if i > 2 {
                assert(v@[i] == hex_of(h)[i - 1]);
            }
        }
        lemma_ascii_text(v@);
    }
    match decode_text(v) {
        Ok(s) => s,
        Err(_) => String::new(),
    }
}

/// The hex text of a concatenation is the concatenation of the hex texts.
proof fn lemma_hex_concat(a: Seq<u8>, b: Seq<u8>)
    ensures
        hex_of(a + b) == hex_of(a) + hex_of(b),
    decreases b.len(),
{
    if b.len() == 0 {
        assert(a + b =~= a);
        assert(hex_of(a) + hex_of(b) =~= hex_of(a));
    } else {
        lemma_hex_concat(a, b.drop_last());
        assert((a + b).drop_last() =~= a + b.drop_last());
        assert((a + b).last() == b.last());
        assert(hex_of(a + b) =~= hex_of(a) + hex_of(b));
    }
}

/// The hex text of the first `k` bytes is the first `2k` digits.
proof fn lemma_hex_prefix(s: Seq<u8>, k: int)
    requires
        0 <= k <= s.len(),
    ensures
        hex_of(s).take(2 * k) == hex_of(s.subrange(0, k)),
{
    lemma_hex_concat(s.subrange(0, k), s.subrange(k, s.len() as int));
    assert(s.subrange(0, k) + s.subrange(k, s.len() as int) =~= s);
    lemma_hex_of_ascii(s.subrange(0, k));
    assert(hex_of(s).take(2 * k) =~= hex_of(s.subrange(0, k)));
}

/// The hex text after the first `k` bytes is the digits after the first `2k`.
proof fn lemma_hex_split(s: Seq<u8>, k: int)
    requires
        0 <= k <= s.len(),
    ensures
        hex_of(s).skip(2 * k) == hex_of(s.subrange(k, s.len() as int)),
{
    lemma_hex_concat(s.subrange(0, k), s.subrange(k, s.len() as int));
    assert(s.subrange(0, k) + s.subrange(k, s.len() as int) =~= s);
    lemma_hex_of_ascii(s.subrange(0, k));
    assert(hex_of(s).skip(2 * k) =~= hex_of(s.subrange(k, s.len() as int)));
}


/// The value of one lowercase hexadecimal digit, if it is one.
fn hex_digit_value(b: u8) -> (r: Option<u8>)
    ensures
        r is Some <==> is_hex_digit(b),
        r matches Some(v) ==> v < 16 && v == hex_value(b) && hex_digit(v as int) == b,
{
    if 48 <= b && b <= 57 {
        Some(b - 48)
    } else if 97 <= b && b <= 102 {
        Some(b - 87)
    } else {
        None
    }
}

/// Reads a hash from its 40-digit lowercase hexadecimal text; any other
/// text fails with `InvalidHex`.
pub fn hash_from_hex(text: &[u8]) -> (r: GitResult<[u8; 20]>)
    ensures
        r is Ok <==> (text@.len() == 40 && forall|i: int| 0 <= i < 40 ==> is_hex_digit(#[trigger] text@[i])),
        r matches Ok(h) ==> hex_of(h@) == text@,
        r matches Err(e) ==> e == GitError::InvalidHex,
{
    if text.len() != 40 {
        return Err(GitError::InvalidHex);
    }
    let mut h: [u8; 20] = [0u8; 20];
    let mut i: usize = 0;
    assert(h@.take(0) =~= Seq::<u8>::empty());
    assert(text@.take(0) =~= Seq::<u8>::empty());
    while i < 20
        invariant
            i <= 20,
            text@.len() == 40,
            hex_of(h@.take(i as int)) == text@.take(2 * i),
            forall|k: int| 0 <= k < 2 * i ==> is_hex_digit(#[trigger] text@[k]),
        decreases 20 - i,
    {
        let a = text[2 * i];
        let b = text[2 * i + 1];
        let hi = match hex_digit_value(a) {
            Some(v) => v,
            None => {
                return Err(GitError::InvalidHex);
            },
        };
        let lo = match hex_digit_value(b) {
            Some(v) => v,
            None => {
                return Err(GitError::InvalidHex);
            },
        };
        let x: u8 = hi * 16 + lo;
        let ghost before = h@;
        h[i] = x;
        proof {
            assert(x as int / 16 == hi as int && x as int % 16 == lo as int) by (nonlinear_arith)
                requires
                    hi < 16,
                    lo < 16,
                    x == hi * 16 + lo,
            ;
            assert(h@.take(i as int) =~= before.take(i as int));
            assert(h@.take(i + 1).drop_last() =~= h@.take(i as int));
            assert(h@.take(i + 1).last() == x);
            assert(text@.take(2 * i + 2) =~= text@.take(2 * i) + seq![a, b]);
        }
        i = i + 1;
    }
    assert(h@.take(20) =~= h@);
    assert(text@.take(40) =~= text@);
    Ok(h)
}

} // verus!
