//! Vectors as text, checksums, and quoted names.

use crate::text;
use crate::text::push_padded;
use vstd::prelude::*;
use vstd::string::*;

verus! {

/// A vector of 32-bit floats, each component as its IEEE-754 bit pattern.
pub type Vector = Vec<u32>;

/// The standard base64 text of some bytes.
pub uninterp spec fn base64_text(bytes: Seq<u8>) -> Seq<char>;

/// The bytes of a standard base64 text, or the message that says what is
/// wrong with it.
pub uninterp spec fn base64_bytes(text: Seq<char>) -> Result<Seq<u8>, Seq<char>>;

/// Whether decoding `text` gives `bytes`.
pub open spec fn reads_back_as(text: Seq<char>, bytes: Seq<u8>) -> bool {
    base64_bytes(text) == Ok::<Seq<u8>, Seq<char>>(bytes)
}

/// `Engine::encode` of base64's `STANDARD` engine: the text depends on the
/// bytes alone, and decoding it gives the bytes back.
#[verifier::external_body]
fn base64_encode(bytes: &Vec<u8>) -> (r: String)
    ensures
        r@ == base64_text(bytes@),
        reads_back_as(r@, bytes@),
{
    base64::Engine::encode(&base64::engine::general_purpose::STANDARD, bytes)
}

/// What a decoding call came to.
pub open spec fn decoded_as(r: Result<Vec<u8>, String>) -> Result<Seq<u8>, Seq<char>> {
    match r {
        Ok(b) => Ok(b@),
        Err(e) => Err(e@),
    }
}

/// `Engine::decode` of base64's `STANDARD` engine, its error turned into the
/// error's message: the outcome depends on the text alone.
#[verifier::external_body]
fn base64_decode(s: &str) -> (r: Result<Vec<u8>, String>)
    ensures
        decoded_as(r) == base64_bytes(s@),
{
    base64::Engine::decode(&base64::engine::general_purpose::STANDARD, s).map_err(|e| e.to_string())
}

/// The CRC-32C of some bytes.
pub uninterp spec fn crc32c_of(bytes: Seq<u8>) -> u32;

/// `crc32c::crc32c`: the checksum depends on the bytes alone.
#[verifier::external_body]
pub(crate) fn crc32c_sum(bytes: &[u8]) -> (r: u32)
    ensures
        r == crc32c_of(bytes@),
{
    crc32c::crc32c(bytes)
}

/// A text in double quotes, with its special characters escaped.
pub uninterp spec fn quoted(s: Seq<char>) -> Seq<char>;

/// `std`'s `Debug` of a `str`: the quoted text depends on the text alone.
/// Which characters are escaped, and how, is left to `std`.
#[verifier::external_body]
pub(crate) fn quote(s: &str) -> (r: String)
    ensures
        r@ == quoted(s@),
{
    format!("{:?}", s)
}

/// Byte `i` of a 32-bit word, the lowest first.
pub open spec fn le_byte(w: u32, i: int) -> u8 {
    if i == 0 {
        (w % 256) as u8
    } else if i == 1 {
        ((w / 256) % 256) as u8
    } else if i == 2 {
        ((w / 65536) % 256) as u8
    } else {
        (w / 16777216) as u8
    }
}

/// The word with these bytes, the lowest first.
pub open spec fn le_word(a: u8, b: u8, c: u8, d: u8) -> u32 {
    (a + b * 256 + c * 65536 + d * 16777216) as u32
}

/// The bytes of a vector: four for each component, lowest first.
pub open spec fn vector_bytes(v: Seq<u32>) -> Seq<u8> {
    Seq::new(v.len() * 4, |i: int| le_byte(v[i / 4], i % 4))
}

/// The vector that whole groups of four bytes make.
pub open spec fn bytes_vector(b: Seq<u8>) -> Seq<u32> {
    Seq::new(b.len() / 4, |i: int| le_word(b[4 * i], b[4 * i + 1], b[4 * i + 2], b[4 * i + 3]))
}

/// Writing a vector as bytes and reading them gives the vector back.
pub proof fn vector_bytes_round_trip(v: Seq<u32>)
    ensures
        bytes_vector(vector_bytes(v)) == v,
        vector_bytes(v).len() % 4 == 0,
{
    let b = vector_bytes(v);
    assert forall|i: int| 0 <= i < v.len() implies #[trigger] bytes_vector(b)[i] == v[i] by {
        let w = v[i];
        assert(b[4 * i] == le_byte(w, 0));
        assert(b[4 * i + 1] == le_byte(w, 1));
        assert(b[4 * i + 2] == le_byte(w, 2));
        assert(b[4 * i + 3] == le_byte(w, 3));
        assert(w == w % 256 + ((w / 256) % 256) * 256 + ((w / 65536) % 256) * 65536 + (w / 16777216) * 16777216);
    }
    assert(bytes_vector(b) =~= v);
}

/// Why a WAL line cannot be used.
#[derive(Debug)]
pub enum WalError {
    /// Reading or writing failed.
    Io(String),
    /// The data is not what was written.
    Corrupt(String),
}

/// The contents of a [`WalError`].
pub enum WalErrorView {
    Io(Seq<char>),
    Corrupt(Seq<char>),
}

impl View for WalError {
    type V = WalErrorView;

    open spec fn view(&self) -> WalErrorView {
        match self {
            WalError::Io(s) => WalErrorView::Io(s@),
            WalError::Corrupt(s) => WalErrorView::Corrupt(s@),
        }
    }
}

/// The message of a WAL error.
pub open spec fn wal_error_text(e: WalErrorView) -> Seq<char> {
    match e {
        WalErrorView::Io(s) => "io error: "@ + s,
        WalErrorView::Corrupt(s) => "corrupt WAL data: "@ + s,
    }
}

impl WalError {
    /// The error's message.
    pub fn to_text(&self) -> (r: String)
        ensures
            r@ == wal_error_text(self@),
    {
        match self {
            WalError::Io(s) => {
                let mut out = "io error: ".to_owned();
                out.append(s.as_str());
                out
            },
            WalError::Corrupt(s) => {
                let mut out = "corrupt WAL data: ".to_owned();
                out.append(s.as_str());
                out
            },
        }
    }
}

/// What a stored vector text stands for.
pub open spec fn decoded_vector(s: Seq<char>) -> Result<Seq<u32>, WalErrorView> {
    match base64_bytes(s) {
        Err(e) => Err(WalErrorView::Corrupt(e)),
        Ok(b) => if b.len() % 4 != 0 {
            Err(WalErrorView::Corrupt("vector_b64 byte length is not a multiple of 4"@))
        } else {
            Ok(bytes_vector(b))
        },
    }
}

/// What a decoded vector came to.
pub open spec fn vector_result(r: Result<Vec<u32>, WalError>) -> Result<Seq<u32>, WalErrorView> {
    match r {
        Ok(v) => Ok(v@),
        Err(e) => Err(e@),
    }
}

/// Whether a vector's text stands for that vector.
pub open spec fn encodes(v: Seq<u32>) -> bool {
    decoded_vector(base64_text(vector_bytes(v))) == Ok::<Seq<u32>, WalErrorView>(v)
}

/// A vector as base64 of its components' little-endian bytes. Decoding the
/// text gives the vector back.
pub fn encode_vector(v: &Vec<u32>) -> (r: String)
    ensures
        r@ == base64_text(vector_bytes(v@)),
        encodes(v@),
{
    let mut bytes: Vec<u8> = Vec::new();
    let mut i: usize = 0;
    while i < v.len()
        invariant
            i <= v@.len(),
            bytes@ == vector_bytes(v@.take(i as int)),
        decreases v@.len() - i,
    {
        let w = v[i];
        bytes.push((w % 256) as u8);
        bytes.push(((w / 256) % 256) as u8);
        bytes.push(((w / 65536) % 256) as u8);
        bytes.push((w / 16777216) as u8);
        i += 1;
        assert(bytes@ =~= vector_bytes(v@.take(i as int))) by {
            let t = v@.take(i as int);
            let p = v@.take(i - 1);
            assert forall|k: int| 0 <= k < 4 * i implies bytes@[k] == le_byte(t[k / 4], k % 4) by {
                if k < 4 * (i - 1) {
                    assert(t[k / 4] == p[k / 4]);
                    assert(vector_bytes(p)[k] == le_byte(p[k / 4], k % 4));
                } else {
                    assert(k / 4 == i - 1);
                }
            }
        }
    }
    assert(v@.take(i as int) =~= v@);
    proof { vector_bytes_round_trip(v@); }
    base64_encode(&bytes)
}

/// Reads a vector text back.
pub fn decode_vector(s: &str) -> (r: Result<Vec<u32>, WalError>)
    ensures
        vector_result(r) == decoded_vector(s@),
{
    let bytes = match base64_decode(s) {
        Ok(b) => b,
        Err(e) => { return Err(WalError::Corrupt(e)); },
    };
    if bytes.len() % 4 != 0 {
        return Err(WalError::Corrupt("vector_b64 byte length is not a multiple of 4".to_owned()));
    }
    let mut out: Vec<u32> = Vec::new();
    let mut i: usize = 0;
    while i < bytes.len()
        invariant
            i <= bytes@.len(),
            i % 4 == 0,
            bytes@.len() % 4 == 0,
            out@.len() == i / 4,
            forall|k: int| 0 <= k < out@.len() ==> #[trigger] out@[k] == bytes_vector(bytes@)[k],
        decreases bytes@.len() - i,
    {
        let w: u32 = bytes[i] as u32 + bytes[i + 1] as u32 * 256 + bytes[i + 2] as u32 * 65536 + bytes[i + 3] as u32 * 16777216;
        assert(w == bytes_vector(bytes@)[i as int / 4]);
        out.push(w);
        i += 4;
    }
    assert(out@ =~= bytes_vector(bytes@));
    Ok(out)
}

/// The text of a checksum: eight lower-case hexadecimal digits.
pub open spec fn checksum_text(sum: u32) -> Seq<char> {
    text::zero_padded(text::numeral(sum as nat, 16, false), 8)
}

/// The checksum text of some bytes.
pub fn checksum_of(bytes: &[u8]) -> (r: String)
    ensures
        r@ == checksum_text(crc32c_of(bytes@)),
{
    let mut out = String::new();
    push_padded(&mut out, crc32c_sum(bytes) as u64, 16, 8);
    assert(out@ =~= checksum_text(crc32c_of(bytes@)));
    out
}

} // verus!
