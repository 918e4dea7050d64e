//! The object database: hexadecimal names, the object format, hashing and
//! compression, and a store that maps names to compressed objects.
use flate2::read::ZlibDecoder;
use flate2::write::ZlibEncoder;
use flate2::Compression;
use sha1::{Digest, Sha1};
use std::io::{Read, Write};
use vstd::prelude::*;
use vstd::slice::slice_subrange;
use vstd::slice::slice_to_vec;
use vstd::utf8::*;

use super::GitObject;
use crate::text::{
    all_ascii, decimal, find_byte, find_char, first_index, lemma_decimal_ascii,
    lemma_first_index, lemma_first_index_after, lemma_first_index_at, lemma_utf8_ascii, lemma_utf8_ascii_char,
    lemma_utf8_concat, lemma_utf8_lacks_ascii, push_decimal, substring, utf8, utf8_error,
    utf8_to_string,
};

verus! {

broadcast use vstd::utf8::encode_utf8_valid_utf8, vstd::utf8::encode_utf8_decode_utf8;

// ---------------------------------------------------------------------------
// Hexadecimal
// ---------------------------------------------------------------------------

/// The lower-case hexadecimal digit of a value below 16.
pub open spec fn hex_digit(d: u8) -> char {
    if d < 10 {
        ((d + 48) as u32) as char
    } else {
        ((d + 87) as u32) as char
    }
}

/// Two lower-case hexadecimal digits per byte, high half first.
pub open spec fn hex_of(b: Seq<u8>) -> Seq<char> {
    Seq::new(
        2 * b.len(),
        |i: int|
            if i % 2 == 0 {
                hex_digit(b[i / 2] / 16)
            } else {
                hex_digit(b[i / 2] % 16)
            },
    )
}

/// A digit that base 16 accepts, in either case.
pub open spec fn is_hex_digit(c: char) -> bool {
    ('0' <= c <= '9') || ('a' <= c <= 'f') || ('A' <= c <= 'F')
}

/// The value of a base-16 digit.
pub open spec fn hex_value(c: char) -> int {
    if '0' <= c <= '9' {
        c as int - 48
    } else if 'a' <= c <= 'f' {
        c as int - 87
    } else {
        c as int - 55
    }
}

/// A two-character group that `u8::from_str_radix(_, 16)` accepts: two
/// digits, or a plus sign and one digit.
pub open spec fn hex_pair_ok(a: char, b: char) -> bool {
    (is_hex_digit(a) || a == '+') && is_hex_digit(b)
}

/// The byte that `u8::from_str_radix(_, 16)` gives for an accepted group.
pub open spec fn hex_pair_value(a: char, b: char) -> u8 {
    if a == '+' {
        hex_value(b) as u8
    } else {
        (hex_value(a) * 16 + hex_value(b)) as u8
    }
}

/// Text that `hex_to_bytes` accepts: an even number of characters, read two at
/// a time, each group accepted.
pub open spec fn valid_hex(h: Seq<char>) -> bool {
    &&& h.len() % 2 == 0
    &&& forall|k: int| 0 <= k < h.len() / 2 ==> #[trigger] hex_pair_ok(h[2 * k], h[2 * k + 1])
}

/// The bytes that hexadecimal text denotes.
pub open spec fn unhex(h: Seq<char>) -> Seq<u8> {
    Seq::new((h.len() / 2) as nat, |k: int| hex_pair_value(h[2 * k], h[2 * k + 1]))
}

proof fn lemma_hex_digit(d: u8)
    requires
        d < 16,
    ensures
        '0' <= hex_digit(d) <= '9' || 'a' <= hex_digit(d) <= 'f',
        is_hex_digit(hex_digit(d)),
        hex_value(hex_digit(d)) == d,
        hex_digit(d) != '+',
        (hex_digit(d) as u32) < 0x80,
{
}

/// Reading back the hexadecimal text of bytes gives the bytes.
pub proof fn lemma_hex_roundtrip(b: Seq<u8>)
    ensures
        valid_hex(hex_of(b)),
        unhex(hex_of(b)) == b,
        all_ascii(hex_of(b)),
{
    let h = hex_of(b);
    assert forall|k: int| 0 <= k < h.len() / 2 implies #[trigger] hex_pair_ok(h[2 * k], h[2 * k + 1])
        && hex_pair_value(h[2 * k], h[2 * k + 1]) == b[k] by {
        assert((2 * k) / 2 == k);
        assert((2 * k + 1) / 2 == k);
        assert((2 * k) % 2 == 0);
        assert((2 * k + 1) % 2 == 1);
        lemma_hex_digit(b[k] / 16);
        lemma_hex_digit(b[k] % 16);
    }
    assert(unhex(h) =~= b);
    assert forall|i: int| 0 <= i < h.len() implies (#[trigger] h[i] as u32) < 0x80 by {
        lemma_hex_digit(b[i / 2] / 16);
        lemma_hex_digit(b[i / 2] % 16);
    }
}

/// Forty lower-case hexadecimal digits, as the name of an object is written.
pub open spec fn lower_hex40(h: Seq<char>) -> bool {
    &&& h.len() == 40
    &&& forall|i: int| 0 <= i < h.len() ==> ('0' <= #[trigger] h[i] <= '9' || 'a' <= h[i] <= 'f')
}

/// Lower-case hexadecimal text is the text of the bytes it denotes.
pub proof fn lemma_lower_hex(h: Seq<char>)
    requires
        lower_hex40(h),
    ensures
        valid_hex(h),
        hex_of(unhex(h)) == h,
{
    let b = unhex(h);
    assert forall|k: int| 0 <= k < h.len() / 2 implies #[trigger] hex_pair_ok(h[2 * k], h[2 * k + 1])
        && b[k] / 16 == hex_value(h[2 * k]) && b[k] % 16 == hex_value(h[2 * k + 1]) by {
        let x = hex_value(h[2 * k]);
        let y = hex_value(h[2 * k + 1]);
        assert(0 <= x < 16 && 0 <= y < 16);
        assert(b[k] == (x * 16 + y) as u8);
        assert((x * 16 + y) / 16 == x && (x * 16 + y) % 16 == y) by (nonlinear_arith)
            requires
                0 <= x < 16,
                0 <= y < 16,
        ;
    }
    assert forall|i: int| 0 <= i < h.len() implies #[trigger] hex_of(b)[i] == h[i] by {
        let k = i / 2;
        assert(0 <= k < 20);
        if i % 2 == 0 {
            assert(i == 2 * k);
        } else {
            assert(i == 2 * k + 1);
        }
        assert(hex_pair_ok(h[2 * k], h[2 * k + 1]));
    }
    assert(hex_of(b) =~= h);
}

/// The name of an object is forty lower-case hexadecimal digits.
pub proof fn lemma_name_lower_hex(b: Seq<u8>)
    requires
        b.len() == 20,
    ensures
        lower_hex40(hex_of(b)),
{
    let h = hex_of(b);
    assert forall|i: int| 0 <= i < h.len() implies ('0' <= #[trigger] h[i] <= '9' || 'a' <= h[i]
        <= 'f') by {
        lemma_hex_digit(b[i / 2] / 16);
        lemma_hex_digit(b[i / 2] % 16);
    }
}

/// The hexadecimal text of bytes, two lower-case digits per byte.
pub fn bytes_to_hex(bytes: &[u8]) -> (r: String)
    ensures
        r@ == hex_of(bytes@),
{
    let digits = "0123456789abcdef";
    proof {
        reveal_strlit("0123456789abcdef");
    }
    let mut r = String::new();
    let mut i: usize = 0;
    while i < bytes.len()
        invariant
            i <= bytes@.len(),
            digits@ == "0123456789abcdef"@,
            digits@.len() == 16,
            forall|d: u8| d < 16 ==> #[trigger] digits@[d as int] == hex_digit(d),
            r@ == hex_of(bytes@.subrange(0, i as int)),
        decreases bytes@.len() - i,
    {
        let b = bytes[i];
        let hi = (b / 16) as usize;
        let lo = (b % 16) as usize;
        let ghost before = r@;
        r.append(digits.substring_char(hi, hi + 1));
        r.append(digits.substring_char(lo, lo + 1));
        proof {
            assert(digits@[hi as int] == hex_digit(b / 16));
            assert(digits@[lo as int] == hex_digit(b % 16));
            let next = bytes@.subrange(0, i + 1);
            assert forall|j: int| 0 <= j < 2 * (i + 1) implies #[trigger] r@[j] == hex_of(next)[j] by {
                assert(j / 2 <= i);
                if j < 2 * i {
                    assert(r@[j] == before[j]);
                    assert(hex_of(bytes@.subrange(0, i as int))[j] == hex_of(next)[j]);
                } else {
                    assert(j / 2 == i);
                }
            }
            assert(r@ =~= hex_of(next));
        }
        i = i + 1;
    }
    assert(bytes@.subrange(0, bytes@.len() as int) =~= bytes@);
    r
}

fn hex_value_of(c: u8) -> (v: u8)
    requires
        is_hex_digit(c as char),
    ensures
        v == hex_value(c as char),
{
    if c <= 57 {
        c - 48
    } else if c >= 97 {
        c - 87
    } else {
        c - 55
    }
}

/// Whether `hex_to_bytes` accepts a text.
pub fn is_valid_hex(hex: &str) -> (r: bool)
    ensures
        r == valid_hex(hex@),
{
    let n = hex.unicode_len();
    if n % 2 != 0 {
        return false;
    }
    let mut k: usize = 0;
    while k < n / 2
        invariant
            k <= n / 2,
            n == hex@.len(),
            n % 2 == 0,
            forall|j: int| 0 <= j < k ==> #[trigger] hex_pair_ok(hex@[2 * j], hex@[2 * j + 1]),
        decreases n / 2 - k,
    {
        let a = hex.get_char(2 * k);
        let b = hex.get_char(2 * k + 1);
        let a_ok = ('0' <= a && a <= '9') || ('a' <= a && a <= 'f') || ('A' <= a && a <= 'F')
            || a == '+';
        let b_ok = ('0' <= b && b <= '9') || ('a' <= b && b <= 'f') || ('A' <= b && b <= 'F');
        if !(a_ok && b_ok) {
            assert(!hex_pair_ok(hex@[2 * k as int], hex@[2 * k + 1]));
            return false;
        }
        k = k + 1;
    }
    true
}

/// The bytes that hexadecimal text denotes, read two characters at a time.
/// The text must be accepted by `valid_hex`: on other text the parse of a
/// group fails, which is a panic.
pub fn hex_to_bytes(hex: &str) -> (r: Vec<u8>)
    requires
        valid_hex(hex@),
    ensures
        r@ == unhex(hex@),
{
    let ghost h = hex@;
    proof {
        assert(all_ascii(h)) by {
            assert forall|i: int| 0 <= i < h.len() implies (#[trigger] h[i] as u32) < 0x80 by {
                let k = i / 2;
                assert(hex_pair_ok(h[2 * k], h[2 * k + 1]));
            }
        }
        lemma_utf8_ascii(h);
    }
    let bytes = hex.as_bytes();
    let mut r: Vec<u8> = Vec::new();
    let mut i: usize = 0;
    while i + 1 < bytes.len()
        invariant
            i % 2 == 0,
            i <= bytes@.len(),
            bytes@ == Seq::new(h.len(), |j: int| h[j] as u8),
            valid_hex(h),
            r@ == unhex(h).subrange(0, (i / 2) as int),
        decreases bytes@.len() - i,
    {
        let ghost k = i / 2;
        proof {
            assert(hex_pair_ok(h[2 * k], h[2 * k + 1]));
            assert(2 * k == i);
        }
        let a = bytes[i];
        let b = bytes[i + 1];
        proof {
            assert(a as char == h[i as int]) by {
                vstd::utf8::char_u32_cast(h[i as int], h[i as int] as u32);
            }
            assert(b as char == h[i + 1]) by {
                vstd::utf8::char_u32_cast(h[i + 1], h[i + 1] as u32);
            }
        }
        let v = if a == 43 {
            hex_value_of(b)
        } else {
            let hi = hex_value_of(a);
            let lo = hex_value_of(b);
            hi * 16 + lo
        };
        r.push(v);
        proof {
            assert(r@ =~= unhex(h).subrange(0, ((i + 2) / 2) as int));
        }
        i = i + 2;
    }
    proof {
        assert(i == bytes@.len());
        assert(unhex(h).subrange(0, (i / 2) as int) =~= unhex(h));
    }
    r
}


// ---------------------------------------------------------------------------
// The object format
// ---------------------------------------------------------------------------

/// The header of an object: its kind, a space, the body's length in decimal,
/// and a zero byte.
pub open spec fn object_header(kind: Seq<char>, len: nat) -> Seq<u8> {
    utf8(kind) + seq![32u8] + utf8(decimal(len)) + seq![0u8]
}

/// The stored form of an object: the header, then the body.
pub open spec fn object_bytes(kind: Seq<char>, body: Seq<u8>) -> Seq<u8> {
    object_header(kind, body.len()) + body
}

/// The kind named by a header: the text before its first space.
pub open spec fn header_kind(header: Seq<char>) -> Seq<char> {
    match first_index(header, ' ') {
        Some(i) => header.subrange(0, i),
        None => header,
    }
}

/// What reading an object's bytes yields: the kind and the body, or nothing
/// when there is no zero byte or the header is not UTF-8.
pub open spec fn parse_object(data: Seq<u8>) -> Option<(Seq<char>, Seq<u8>)> {
    match first_index(data, 0u8) {
        None => None,
        Some(p) => {
            let header = data.subrange(0, p);
            if valid_utf8(header) {
                Some((header_kind(decode_utf8(header)), data.subrange(p + 1, data.len() as int)))
            } else {
                None
            }
        },
    }
}

/// A kind that reads back unchanged: no space and no zero character.
pub open spec fn plain_kind(kind: Seq<char>) -> bool {
    !kind.contains(' ') && !kind.contains('\0')
}

/// The stored form of an object, as `save` and `hash` build it.
pub fn encode_object(kind: &str, body: &[u8]) -> (r: Vec<u8>)
    ensures
        r@ == object_bytes(kind@, body@),
{
    let mut r = slice_to_vec(kind.as_bytes());
    r.push(32u8);
    push_decimal(&mut r, body.len());
    r.push(0u8);
    let mut tail = slice_to_vec(body);
    r.append(&mut tail);
    r
}

/// Reading back an object of a plain kind gives its kind and body.
pub proof fn lemma_object_roundtrip(kind: Seq<char>, body: Seq<u8>)
    requires
        plain_kind(kind),
    ensures
        parse_object(object_bytes(kind, body)) == Some((kind, body)),
{
    let dec = decimal(body.len());
    lemma_decimal_ascii(body.len());
    let text = kind + seq![' '] + dec;
    lemma_utf8_concat(kind, seq![' ']);
    lemma_utf8_concat(kind + seq![' '], dec);
    lemma_utf8_ascii_char(' ');
    let head = utf8(text);
    assert(head =~= utf8(kind) + seq![32u8] + utf8(dec));
    let data = object_bytes(kind, body);
    assert(data =~= head + (seq![0u8] + body));
    // the header holds no zero byte
    assert(!text.contains('\0')) by {
        if text.contains('\0') {
            let k = choose|k: int| 0 <= k < text.len() && text[k] == '\0';
            if k < kind.len() {
                assert(kind[k] == '\0');
            } else if k == kind.len() {
            } else {
                assert(dec[k - kind.len() - 1] == '\0');
            }
        }
    }
    lemma_utf8_lacks_ascii(text, '\0');
    lemma_first_index_after(head, seq![0u8] + body, 0u8);
    assert(first_index(seq![0u8] + body, 0u8) == Some(0int));
    let p = head.len() as int;
    assert(first_index(data, 0u8) == Some(p));
    assert(data.subrange(0, p) =~= head);
    assert(data.subrange(p + 1, data.len() as int) =~= body);
    assert(decode_utf8(head) == text);
    // the kind is what comes before the first space
    lemma_first_index_after(kind, seq![' '] + dec, ' ');
    assert(text =~= kind + (seq![' '] + dec));
    assert(first_index(seq![' '] + dec, ' ') == Some(0int));
    assert(text.subrange(0, kind.len() as int) =~= kind);
}

/// The error for bytes that do not read as an object: no zero byte ends a
/// header, or the header is not UTF-8.
pub open spec fn object_error(data: Seq<u8>) -> Seq<char> {
    match first_index(data, 0u8) {
        None => "invalid object format"@,
        Some(p) => "invalid object header: "@ + utf8_error(data.subrange(0, p)),
    }
}

/// The error for a stored file that does not read as an object: a stream
/// that does not inflate (flate2's message follows the prefix), or inflated
/// bytes that are not an object.
pub open spec fn file_error(file: Seq<u8>, e: Seq<char>) -> bool {
    match zlib_inflate(file) {
        None => "failed to decompress object: "@.is_prefix_of(e),
        Some(d) => e == object_error(d),
    }
}

/// The error for loading a name: a name with no file, or a file that does
/// not read as an object.
pub open spec fn load_error(m: Map<Seq<char>, Seq<u8>>, name: Seq<char>, e: Seq<char>) -> bool {
    if m.dom().contains(name) {
        file_error(m[name], e)
    } else {
        e == "failed to read object: no such object"@
    }
}

/// Reads the kind and body out of an object's bytes.
pub fn parse_object_bytes(data: &[u8]) -> (r: Result<(String, Vec<u8>), String>)
    ensures
        r matches Ok((k, b)) ==> parse_object(data@) == Some((k@, b@)),
        r is Err ==> parse_object(data@) is None,
        r matches Err(e) ==> e@ == object_error(data@),
{
    proof {
        lemma_first_index(data@, 0u8);
        assert(data@.subrange(0, data@.len() as int) =~= data@);
    }
    let null_pos = match find_byte(data, 0u8, 0) {
        Some(p) => p,
        None => {
            proof {
                reveal_strlit("invalid object format");
            }
            return Err(String::from_str("invalid object format"));
        },
    };
    let head_bytes = slice_subrange(data, 0, null_pos);
    let n = data.len();
    assert(null_pos < n);
    proof {
        lemma_first_index_at(data@, 0u8, null_pos as int);
    }
    assert(head_bytes@ == data@.subrange(0, null_pos as int));
    let header = match utf8_to_string(head_bytes) {
        Ok(h) => h,
        Err(e) => {
            let mut msg = String::from_str("invalid object header: ");
            msg.append(e.as_str());
            proof {
                reveal_strlit("invalid object header: ");
            }
            return Err(msg);
        },
    };
    proof {
        assert(header@.subrange(0, header@.len() as int) =~= header@);
        lemma_first_index(header@, ' ');
    }
    let kind = match find_char(header.as_str(), ' ', 0) {
        Some(i) => substring(header.as_str(), 0, i),
        None => header,
    };
    proof {
        assert(header@.subrange(0, header@.len() as int) =~= header@);
    }
    let body = slice_to_vec(slice_subrange(data, null_pos + 1, n));
    Ok((kind, body))
}

// ---------------------------------------------------------------------------
// Hashing and compression
// ---------------------------------------------------------------------------

/// The SHA-1 digest of a byte sequence.
pub uninterp spec fn sha1_spec(data: Seq<u8>) -> Seq<u8>;

/// Trusted: calls `sha1::Sha1::digest` through the `Digest` trait. The
/// contract names the digest of the input and says that it has 20 bytes.
#[verifier::external_body]
fn sha1_digest(data: &[u8]) -> (r: Vec<u8>)
    ensures
        r@ == sha1_spec(data@),
        r@.len() == 20,
{
    Sha1::digest(data).to_vec()
}

/// The zlib stream that `flate2` writes for a byte sequence at the default
/// level.
pub uninterp spec fn zlib_deflate(data: Seq<u8>) -> Seq<u8>;

/// The bytes that `flate2` reads out of a zlib stream, or nothing when the
/// stream does not decode.
pub uninterp spec fn zlib_inflate(stream: Seq<u8>) -> Option<Seq<u8>>;

/// Why compression failed: while writing the input, or while finishing.
pub enum DeflateFailure {
    Write(String),
    Finish(String),
}

/// Trusted: writes the input through `flate2::write::ZlibEncoder` (default
/// level) into a vector and calls `finish`. The contract claims that on
/// success the result is the named stream of the input, and that
/// `flate2::read::ZlibDecoder` reads that stream back as the input (the
/// round trip that flate2's own tests check with these two types). It also
/// claims success: the sink is a `Vec`, whose writes do not fail, and with
/// the default miniz_oxide backend flate2 turns that backend's buffer error
/// into a status (flate2's `ffi/miniz_oxide.rs`, `compress`); its other
/// errors guard bounds inside miniz_oxide's own buffers.
#[verifier::external_body]
fn zlib_compress(data: &[u8]) -> (r: Result<Vec<u8>, DeflateFailure>)
    ensures
        r is Ok,
        r matches Ok(v) ==> v@ == zlib_deflate(data@),
        r matches Ok(v) ==> zlib_inflate(v@) == Some(data@),
{
    let mut encoder = ZlibEncoder::new(Vec::new(), Compression::default());
    if let Err(e) = encoder.write_all(data) {
        return Err(DeflateFailure::Write(e.to_string()));
    }
    match encoder.finish() {
        Ok(v) => Ok(v),
        Err(e) => Err(DeflateFailure::Finish(e.to_string())),
    }
}

/// Trusted: reads the input to its end through `flate2::read::ZlibDecoder`.
/// The contract names what the decoder gives for the input (a slice, so the
/// outcome depends on its bytes alone), and claims that a stream written by
/// `zlib_compress` reads back as what was written, which flate2's own
/// round-trip tests check. The text of an error is flate2's and is left
/// unsaid.
#[verifier::external_body]
fn zlib_decompress(stream: &[u8]) -> (r: Result<Vec<u8>, String>)
    ensures
        r is Ok <==> zlib_inflate(stream@) is Some,
        r matches Ok(v) ==> zlib_inflate(stream@) == Some(v@),
        r matches Ok(v) ==> forall|x: Seq<u8>| #[trigger] zlib_deflate(x) == stream@ ==> v@ == x,
        r is Err ==> forall|x: Seq<u8>| #[trigger] zlib_deflate(x) != stream@,
{
    let mut decoder = ZlibDecoder::new(stream);
    let mut out = Vec::new();
    match decoder.read_to_end(&mut out) {
        Ok(_) => Ok(out),
        Err(e) => Err(e.to_string()),
    }
}

/// The kind and body of the object stored under a name, if it is there, its
/// file inflates, and the object is well formed.
pub open spec fn read_object(m: Map<Seq<char>, Seq<u8>>, name: Seq<char>) -> Option<(Seq<char>, Seq<u8>)> {
    if m.dom().contains(name) {
        match zlib_inflate(m[name]) {
            Some(data) => parse_object(data),
            None => None,
        }
    } else {
        None
    }
}

/// The name of an object: the hexadecimal text of the SHA-1 of its stored
/// form.
pub open spec fn name_of(data: Seq<u8>) -> Seq<char> {
    hex_of(sha1_spec(data))
}

/// The name of a stored object, as `save` would give it.
pub fn hash<T: GitObject>(obj: &T) -> (r: String)
    ensures
        r@ == name_of(object_bytes(obj.kind(), obj.body())),
        object_key_ok(r@),
{
    let body = obj.serialize_body();
    let data = encode_object(obj.object_type(), body.as_slice());
    let digest = sha1_digest(data.as_slice());
    proof {
        lemma_hex_key_ok(digest@);
    }
    bytes_to_hex(digest.as_slice())
}


// ---------------------------------------------------------------------------
// The store
// ---------------------------------------------------------------------------

/// The names, paired with the file each holds; a later pair for a name
/// replaces an earlier one.
pub open spec fn files_map(s: Seq<(String, Vec<u8>)>) -> Map<Seq<char>, Seq<u8>>
    decreases s.len(),
{
    if s.len() == 0 {
        Map::empty()
    } else {
        files_map(s.drop_last()).insert(s.last().0@, s.last().1@)
    }
}

/// A name that the object directory layout can split: its first two bytes
/// name the directory, so byte 2 must start a character.
pub open spec fn object_key_ok(name: Seq<char>) -> bool {
    is_char_boundary(utf8(name), 2)
}

/// The hexadecimal text of at least one byte can be split into directory
/// and file name.
pub proof fn lemma_hex_key_ok(b: Seq<u8>)
    requires
        b.len() >= 1,
    ensures
        object_key_ok(hex_of(b)),
{
    let h = hex_of(b);
    lemma_hex_roundtrip(b);
    lemma_utf8_ascii(h);
    let bytes = utf8(h);
    assert(bytes.len() == h.len());
    if bytes.len() == 2 {
        vstd::utf8::is_char_boundary_start_end_of_seq(bytes);
    } else {
        vstd::utf8::is_char_boundary_iff_not_is_continuation_byte(bytes, 2);
        assert((h[2] as u32) < 0x80);
        assert(bytes[2] == h[2] as u8);
        let x = h[2] as u32;
        assert((x as u8) < 0x80) by (bit_vector)
            requires
                x < 0x80,
        ;
    }
}

/// Whether a name can be split into directory and file name.
pub fn object_key_check(name: &str) -> (r: bool)
    ensures
        r == object_key_ok(name@),
{
    name.is_char_boundary(2)
}

/// The records of a store, in the order they were added: each name with
/// its compressed file.
pub open spec fn records_view(files: Seq<(String, Vec<u8>)>) -> Seq<(Seq<char>, Seq<u8>)> {
    files.map_values(|p: (String, Vec<u8>)| (p.0@, p.1@))
}

/// The objects directory of a repository, as a map from object names to the
/// compressed files under them. Files read from disk are added with
/// `insert_file`; the pairs after a given length are those to write back.
pub struct ObjectStore {
    pub files: Vec<(String, Vec<u8>)>,
}

impl View for ObjectStore {
    type V = Map<Seq<char>, Seq<u8>>;

    open spec fn view(&self) -> Map<Seq<char>, Seq<u8>> {
        files_map(self.files@)
    }
}

proof fn lemma_files_map_absent(s: Seq<(String, Vec<u8>)>, i: int, key: Seq<char>)
    requires
        0 <= i <= s.len(),
        forall|j: int| i <= j < s.len() ==> (#[trigger] s[j]).0@ != key,
    ensures
        files_map(s).dom().contains(key) == files_map(s.subrange(0, i)).dom().contains(key),
        files_map(s).dom().contains(key) ==> files_map(s)[key] == files_map(s.subrange(0, i))[key],
    decreases s.len(),
{
    if s.len() > i {
        assert forall|j: int| i <= j < s.drop_last().len() implies (#[trigger] s.drop_last()[j]).0@
            != key by {
            assert(s.drop_last()[j] == s[j]);
        }
        lemma_files_map_absent(s.drop_last(), i, key);
        assert(s.drop_last().subrange(0, i) =~= s.subrange(0, i));
    } else {
        assert(s.subrange(0, i) =~= s);
    }
}

impl ObjectStore {
    /// An empty store.
    pub fn new() -> (r: Self)
        ensures
            r@ == Map::<Seq<char>, Seq<u8>>::empty(),
    {
        ObjectStore { files: Vec::new() }
    }

    /// Records the file stored under a name.
    pub fn insert_file(&mut self, name: String, file: Vec<u8>)
        ensures
            final(self)@ == old(self)@.insert(name@, file@),
            final(self).files@ == old(self).files@.push((name, file)),
    {
        self.files.push((name, file));
        proof {
            assert(final(self).files@.drop_last() =~= old(self).files@);
        }
    }

    /// The file stored under a name, if there is one.
    pub fn lookup(&self, name: &str) -> (r: Option<&Vec<u8>>)
        ensures
            r is Some <==> self@.dom().contains(name@),
            r matches Some(f) ==> f@ == self@[name@],
    {
        let key = String::from_str(name);
        let mut i = self.files.len();
        while i > 0
            invariant
                i <= self.files@.len(),
                key@ == name@,
                forall|j: int| i <= j < self.files@.len() ==> (#[trigger] self.files@[j]).0@ != name@,
            decreases i,
        {
            if self.files[i - 1].0 == key {
                proof {
                    lemma_files_map_absent(self.files@, i as int, name@);
                    let pre = self.files@.subrange(0, i as int);
                    assert(pre.drop_last() =~= self.files@.subrange(0, i - 1));
                    assert(pre.last() == self.files@[i - 1]);
                }
                return Some(&self.files[i - 1].1);
            }
            i = i - 1;
        }
        proof {
            lemma_files_map_absent(self.files@, 0, name@);
            assert(self.files@.subrange(0, 0) =~= Seq::<(String, Vec<u8>)>::empty());
        }
        None
    }

    /// Records a compressed object under the text of its digest, as
    /// `save_bytes` does with what SHA-1 and the compressor gave it: the
    /// name is the lower-case hexadecimal text of the digest, and a failed
    /// compression is an error that names the step that failed, with the
    /// store left as it was.
    pub fn store_compressed(&mut self, digest: &[u8], compressed: Result<Vec<u8>, DeflateFailure>) -> (r:
        Result<String, String>)
        ensures
            compressed matches Ok(c) ==> r matches Ok(h) && h@ == hex_of(digest@)
                && final(self).files@ == old(self).files@.push((h, c)),
            compressed matches Ok(c) ==> final(self)@ == old(self)@.insert(hex_of(digest@), c@),
            compressed matches Err(DeflateFailure::Write(e)) ==> r matches Err(m) && m@
                == "failed to encode object: "@ + e@,
            compressed matches Err(DeflateFailure::Finish(e)) ==> r matches Err(m) && m@
                == "failed to compress object: "@ + e@,
            compressed is Err ==> final(self).files@ == old(self).files@,
    {
        let hash_hex = bytes_to_hex(digest);
        let compressed = match compressed {
            Ok(c) => c,
            Err(DeflateFailure::Write(e)) => {
                let mut msg = String::from_str("failed to encode object: ");
                msg.append(e.as_str());
                proof {
                    reveal_strlit("failed to encode object: ");
                }
                return Err(msg);
            },
            Err(DeflateFailure::Finish(e)) => {
                let mut msg = String::from_str("failed to compress object: ");
                msg.append(e.as_str());
                proof {
                    reveal_strlit("failed to compress object: ");
                }
                return Err(msg);
            },
        };
        let name = hash_hex.clone();
        self.insert_file(name, compressed);
        Ok(hash_hex)
    }

    /// Stores bytes that already hold an object's header and returns their
    /// name.
    pub fn save_bytes(&mut self, data: &[u8]) -> (r: Result<String, String>)
        ensures
            r matches Ok(h) ==> h@ == name_of(data@) && final(self)@ == old(self)@.insert(
                h@,
                zlib_deflate(data@),
            ),
            r is Ok ==> sha1_spec(data@).len() == 20,
            r is Ok ==> zlib_inflate(zlib_deflate(data@)) == Some(data@),
            r is Ok,
            r matches Ok(h) ==> object_key_ok(h@),
            r matches Ok(h) ==> records_view(final(self).files@) == records_view(old(self).files@).push(
                (h@, zlib_deflate(data@)),
            ),
            r is Ok ==> final(self).files@.len() == old(self).files@.len() + 1,
            r is Ok ==> final(self).files@.subrange(0, old(self).files@.len() as int) == old(
                self,
            ).files@,
    {
        let digest = sha1_digest(data);
        let compressed = zlib_compress(data);
        let r = self.store_compressed(digest.as_slice(), compressed);
        proof {
            lemma_hex_key_ok(digest@);
            assert(records_view(self.files@) =~= records_view(old(self).files@).push(
                (hex_of(digest@), zlib_deflate(data@)),
            ));
            assert(final(self).files@.subrange(0, old(self).files@.len() as int) =~= old(
                self,
            ).files@);
        }
        r
    }

    /// Reads the object stored under a name: its kind and body. A missing
    /// name, a file that does not inflate and a malformed object are errors.
    pub fn load(&self, hash_hex: &str) -> (r: Result<(String, Vec<u8>), String>)
        requires
            object_key_ok(hash_hex@),
        ensures
            r is Ok <==> read_object(self@, hash_hex@) is Some,
            r matches Ok((k, b)) ==> read_object(self@, hash_hex@) == Some((k@, b@)),
            forall|x: Seq<u8>|
                self@.dom().contains(hash_hex@) && #[trigger] zlib_deflate(x) == self@[hash_hex@]
                    ==> read_object(self@, hash_hex@) == parse_object(x),
            r matches Err(e) ==> load_error(self@, hash_hex@, e@),
    {
        proof {
            reveal_strlit("failed to read object: no such object");
        }
        match self.lookup(hash_hex) {
            None => Err(String::from_str("failed to read object: no such object")),
            Some(file) => decode_object_file(file.as_slice()),
        }
    }
}

/// Inflates a stored file and reads the object out of it.
pub fn decode_object_file(file: &[u8]) -> (r: Result<(String, Vec<u8>), String>)
    ensures
        r is Ok <==> (match zlib_inflate(file@) {
            Some(d) => parse_object(d) is Some,
            None => false,
        }),
        r matches Ok((k, b)) ==> zlib_inflate(file@) matches Some(d) && parse_object(d) == Some(
            (k@, b@),
        ),
        forall|x: Seq<u8>| #[trigger] zlib_deflate(x) == file@ ==> zlib_inflate(file@) == Some(x),
        r matches Err(e) ==> file_error(file@, e@),
{
    let data = match zlib_decompress(file) {
        Ok(d) => d,
        Err(e) => {
            let mut msg = String::from_str("failed to decompress object: ");
            msg.append(e.as_str());
            proof {
                reveal_strlit("failed to decompress object: ");
            }
            return Err(msg);
        },
    };
    parse_object_bytes(data.as_slice())
}

/// Stores an object: its header and body, compressed, under the name of the
/// SHA-1 of both.
pub fn save<T: GitObject>(store: &mut ObjectStore, obj: &T) -> (r: Result<String, String>)
    ensures
        r matches Ok(h) ==> h@ == name_of(object_bytes(obj.kind(), obj.body())) && final(store)@
            == old(store)@.insert(h@, zlib_deflate(object_bytes(obj.kind(), obj.body()))),
        r is Ok ==> zlib_inflate(zlib_deflate(object_bytes(obj.kind(), obj.body()))) == Some(
            object_bytes(obj.kind(), obj.body()),
        ),
        r is Ok ==> final(store).files@.len() == old(store).files@.len() + 1,
        r is Ok ==> final(store).files@.subrange(0, old(store).files@.len() as int) == old(
            store,
        ).files@,
        r is Ok,
        r matches Ok(h) ==> object_key_ok(h@),
        r matches Ok(h) ==> records_view(final(store).files@) == records_view(old(store).files@).push(
            (h@, zlib_deflate(object_bytes(obj.kind(), obj.body()))),
        ),
{
    let body = obj.serialize_body();
    let data = encode_object(obj.object_type(), body.as_slice());
    store.save_bytes(data.as_slice())
}

/// The directory and the file that hold an object, under `.minigit/objects`:
/// the directory is named by the first two bytes of the name, the file by
/// the rest.
pub fn object_location(hash_hex: &str) -> (r: (String, String))
    requires
        object_key_ok(hash_hex@),
    ensures
        ({
            let b = utf8(hash_hex@);
            &&& r.0@ == ".minigit/objects/"@ + decode_utf8(b.subrange(0, 2))
            &&& r.1@ == r.0@ + "/"@ + decode_utf8(b.subrange(2, b.len() as int))
        }),
{
    let (head, tail) = hash_hex.split_at(2);
    let mut dir = String::from_str(".minigit/objects/");
    dir.append(head);
    let mut file = dir.clone();
    file.append("/");
    file.append(tail);
    (dir, file)
}


/// Loading the name that saving an object returned gives back the object's
/// kind and body: the file stored under the name inflates to the object
/// (as `save_bytes` ensures), and reading the object back gives kind and
/// body, for any kind without spaces or zero characters.
pub proof fn law_load_after_save(m: Map<Seq<char>, Seq<u8>>, kind: Seq<char>, body: Seq<u8>)
    requires
        plain_kind(kind),
        zlib_inflate(zlib_deflate(object_bytes(kind, body))) == Some(object_bytes(kind, body)),
    ensures
        ({
            let data = object_bytes(kind, body);
            read_object(m.insert(name_of(data), zlib_deflate(data)), name_of(data)) == Some(
                (kind, body),
            )
        }),
{
    lemma_object_roundtrip(kind, body);
}

} // verus!
