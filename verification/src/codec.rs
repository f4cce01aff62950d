//! Length-prefixed framing: version, kind, request id, body length, body.
//! Numbers are big-endian.

use vstd::prelude::*;

verus! {

/// The protocol version that frames carry.
pub const PROTOCOL_VERSION: u8 = 1;

/// The bytes before a frame's body: version, kind, request id, body length.
pub const HEADER_LEN: usize = 22;

/// Whether a frame holds a request or a response.
#[derive(Clone, Copy, PartialEq, Eq, Debug, Structural)]
pub enum FrameKind {
    /// A request, byte 0.
    Request,
    /// A response, byte 1.
    Response,
}

/// Errors from framing, and from turning bodies into values.
#[derive(Debug, PartialEq)]
pub enum ProtoError {
    /// The buffer does not hold enough bytes for a frame header.
    FrameTooShort { need: usize, have: usize },
    /// The frame's protocol version is not the supported one.
    UnsupportedVersion(u8, u8),
    /// The frame's kind byte is not known.
    InvalidFrameKind(u8),
    /// The declared body length does not fit the buffer.
    BodyLengthMismatch { declared: u32, have: usize },
    /// A body could not be encoded.
    Encode(String),
    /// A body could not be decoded.
    Decode(String),
}

/// Results that fail with a [`ProtoError`].
pub type ProtoResult<T> = Result<T, ProtoError>;

/// The byte of a frame kind.
pub open spec fn kind_byte(k: FrameKind) -> u8 {
    match k {
        FrameKind::Request => 0,
        FrameKind::Response => 1,
    }
}

impl FrameKind {
    /// The kind that a byte stands for.
    pub fn from_byte(b: u8) -> (r: ProtoResult<Self>)
        ensures
            match r {
                Ok(k) => kind_byte(k) == b,
                Err(e) => b > 1 && e == ProtoError::InvalidFrameKind(b),
            },
    {
        match b {
            0 => Ok(FrameKind::Request),
            1 => Ok(FrameKind::Response),
            other => Err(ProtoError::InvalidFrameKind(other)),
        }
    }

    /// The byte that stands for the kind.
    pub fn to_byte(self) -> (r: u8)
        ensures
            r == kind_byte(self),
    {
        match self {
            FrameKind::Request => 0,
            FrameKind::Response => 1,
        }
    }
}

/// A frame taken from a buffer.
#[derive(Debug)]
pub struct DecodedFrame {
    pub version: u8,
    pub kind: FrameKind,
    /// The 128 bits of the request's UUID.
    pub request_id: u128,
    pub body: Vec<u8>,
}

/// The contents of a [`DecodedFrame`].
pub struct FrameView {
    pub version: u8,
    pub kind: FrameKind,
    pub request_id: u128,
    pub body: Seq<u8>,
}

impl View for DecodedFrame {
    type V = FrameView;

    open spec fn view(&self) -> FrameView {
        FrameView { version: self.version, kind: self.kind, request_id: self.request_id, body: self.body@ }
    }
}

/// A power of 256.
pub open spec fn pow256(k: nat) -> nat
    decreases k,
{
    if k == 0 { 1 } else { 256 * pow256((k - 1) as nat) }
}

/// The last `k` bytes of a number, most significant first.
pub open spec fn be_bytes(n: nat, k: nat) -> Seq<u8>
    decreases k,
{
    if k == 0 { Seq::empty() } else { be_bytes(n / 256, (k - 1) as nat).push((n % 256) as u8) }
}

/// The number that bytes stand for, most significant first.
pub open spec fn be_value(b: Seq<u8>) -> nat
    decreases b.len(),
{
    if b.len() == 0 { 0 } else { be_value(b.drop_last()) * 256 + b.last() as nat }
}

proof fn lemma_be_bytes_len(n: nat, k: nat)
    ensures
        be_bytes(n, k).len() == k,
    decreases k,
{
    if k > 0 {
        lemma_be_bytes_len(n / 256, (k - 1) as nat);
    }
}

proof fn lemma_be_value_bound(b: Seq<u8>)
    ensures
        be_value(b) < pow256(b.len()),
    decreases b.len(),
{
    if b.len() > 0 {
        lemma_be_value_bound(b.drop_last());
    }
}

/// Bytes read back as the number they were made from.
pub proof fn be_bytes_read_back(n: nat, k: nat)
    requires
        n < pow256(k),
    ensures
        be_value(be_bytes(n, k)) == n,
        be_bytes(n, k).len() == k,
    decreases k,
{
    if k > 0 {
        let m = n / 256;
        assert(m < pow256((k - 1) as nat)) by (nonlinear_arith)
            requires
                n < 256 * pow256((k - 1) as nat),
                m == n / 256,
        ;
        be_bytes_read_back(m, (k - 1) as nat);
        assert(be_bytes(n, k).drop_last() =~= be_bytes(m, (k - 1) as nat));
    }
}

proof fn lemma_pow256()
    ensures
        pow256(4) == 0x1_0000_0000,
        pow256(16) == 0x1_0000_0000_0000_0000_0000_0000_0000_0000,
{
    reveal_with_fuel(pow256, 17);
}

proof fn lemma_pow256_grows(a: nat, b: nat)
    requires
        a <= b,
    ensures
        pow256(a) <= pow256(b),
    decreases b,
{
    if a < b {
        lemma_pow256_grows(a, (b - 1) as nat);
    }
}

fn write_be(out: &mut Vec<u8>, n: u128, k: usize)
    requires
        k <= 16,
    ensures
        final(out)@ == old(out)@ + be_bytes(n as nat, k as nat),
{
    let ghost start = out@;
    let mut rest: u128 = n;
    let mut digits: Vec<u8> = Vec::new();
    let mut i: usize = 0;
    assert(be_bytes(rest as nat, (k - i) as nat) + digits@.reverse() =~= be_bytes(n as nat, k as nat));
    while i < k
        invariant
            i <= k,
            digits@.len() == i,
            be_bytes(rest as nat, (k - i) as nat) + digits@.reverse() == be_bytes(n as nat, k as nat),
        decreases k - i,
    {
        let ghost was = digits@;
        let d = (rest % 256) as u8;
        proof {
            let head = be_bytes((rest / 256) as nat, (k - i - 1) as nat);
            assert(be_bytes(rest as nat, (k - i) as nat) == head.push(d));
            assert(was.push(d).reverse() =~= seq![d] + was.reverse());
            assert(head + was.push(d).reverse() =~= head.push(d) + was.reverse());
        }
        digits.push(d);
        rest = rest / 256;
        i += 1;
    }
    assert(digits@.reverse() =~= be_bytes(n as nat, k as nat));
    let mut j: usize = k;
    while j > 0
        invariant
            j <= k,
            digits@.len() == k,
            out@ == start + digits@.reverse().take(k - j),
        decreases j,
    {
        j -= 1;
        out.push(digits[j]);
        assert(out@ =~= start + digits@.reverse().take(k - j));
    }
    assert(digits@.reverse().take(k as int) =~= digits@.reverse());
}

fn read_be(buf: &[u8], from: usize, k: usize) -> (r: u128)
    requires
        k <= 16,
        from + k <= buf@.len(),
    ensures
        r == be_value(buf@.subrange(from as int, from + k)),
{
    let end = buf.len();
    let mut v: u128 = 0;
    let mut i: usize = 0;
    assert(buf@.subrange(from as int, from as int) =~= Seq::<u8>::empty());
    while i < k
        invariant
            i <= k <= 16,
            end == buf@.len(),
            from + k <= end,
            v == be_value(buf@.subrange(from as int, from + i)),
        decreases k - i,
    {
        let ghost s = buf@.subrange(from as int, from + i + 1);
        proof {
            lemma_be_value_bound(s);
            lemma_pow256();
            lemma_pow256_grows((i + 1) as nat, 16);
            assert(s.drop_last() =~= buf@.subrange(from as int, from + i));
        }
        v = v * 256 + buf[from + i] as u128;
        i += 1;
    }
    v
}

/// The bytes of a frame.
pub open spec fn frame_bytes(kind: FrameKind, request_id: u128, body: Seq<u8>) -> Seq<u8> {
    seq![PROTOCOL_VERSION, kind_byte(kind)] + be_bytes(request_id as nat, 16) + be_bytes(body.len(), 4) + body
}

/// What comes of taking a frame from the front of a buffer: nothing while it
/// is not complete, else the frame and how many bytes it takes.
pub open spec fn decoded_frame(buf: Seq<u8>) -> Result<Option<(FrameView, nat)>, ProtoError> {
    if buf.len() < HEADER_LEN {
        Ok(None)
    } else if buf[0] != PROTOCOL_VERSION {
        Err(ProtoError::UnsupportedVersion(buf[0], PROTOCOL_VERSION))
    } else if buf[1] > 1 {
        Err(ProtoError::InvalidFrameKind(buf[1]))
    } else {
        let total = HEADER_LEN + be_value(buf.subrange(18, 22));
        if buf.len() < total {
            Ok(None)
        } else {
            Ok(Some((
                FrameView {
                    version: buf[0],
                    kind: if buf[1] == 0 { FrameKind::Request } else { FrameKind::Response },
                    request_id: be_value(buf.subrange(2, 18)) as u128,
                    body: buf.subrange(HEADER_LEN as int, total as int),
                },
                total as nat,
            )))
        }
    }
}

/// What a decoding call returned.
pub open spec fn decode_result(r: ProtoResult<Option<(DecodedFrame, usize)>>) -> Result<Option<(FrameView, nat)>, ProtoError> {
    match r {
        Ok(Some((f, n))) => Ok(Some((f@, n as nat))),
        Ok(None) => Ok(None),
        Err(e) => Err(e),
    }
}

fn encode_frame(kind: FrameKind, request_id: u128, body: &Vec<u8>) -> (r: Vec<u8>)
    requires
        body@.len() <= u32::MAX,
    ensures
        r@ == frame_bytes(kind, request_id, body@),
{
    let mut out: Vec<u8> = Vec::new();
    out.push(PROTOCOL_VERSION);
    out.push(kind.to_byte());
    assert(out@ =~= seq![PROTOCOL_VERSION, kind_byte(kind)]);
    write_be(&mut out, request_id, 16);
    write_be(&mut out, body.len() as u128, 4);
    let ghost head = out@;
    let mut i: usize = 0;
    while i < body.len()
        invariant
            i <= body@.len(),
            out@ == head + body@.take(i as int),
        decreases body@.len() - i,
    {
        out.push(body[i]);
        i += 1;
        assert(out@ =~= head + body@.take(i as int));
    }
    assert(body@.take(i as int) =~= body@);
    out
}

/// Frames an encoded request. The body's length has to fit its field.
pub fn encode_request(request_id: u128, body: &Vec<u8>) -> (r: Vec<u8>)
    requires
        body@.len() <= u32::MAX,
    ensures
        r@ == frame_bytes(FrameKind::Request, request_id, body@),
{
    encode_frame(FrameKind::Request, request_id, body)
}

/// Frames an encoded response.
pub fn encode_response(request_id: u128, body: &Vec<u8>) -> (r: Vec<u8>)
    requires
        body@.len() <= u32::MAX,
    ensures
        r@ == frame_bytes(FrameKind::Response, request_id, body@),
{
    encode_frame(FrameKind::Response, request_id, body)
}

/// Takes one frame from the front of a buffer. Nothing is returned while the
/// buffer does not hold a complete frame, and nothing is consumed either.
pub fn try_decode_frame(buf: &[u8]) -> (r: ProtoResult<Option<(DecodedFrame, usize)>>)
    ensures
        decode_result(r) == decoded_frame(buf@),
{
    if buf.len() < HEADER_LEN {
        return Ok(None);
    }
    let version = buf[0];
    if version != PROTOCOL_VERSION {
        return Err(ProtoError::UnsupportedVersion(version, PROTOCOL_VERSION));
    }
    let kind = match FrameKind::from_byte(buf[1]) {
        Ok(k) => k,
        Err(e) => { return Err(e); },
    };
    let request_id = read_be(buf, 2, 16);
    let body_len = read_be(buf, 18, 4);
    proof {
        lemma_be_value_bound(buf@.subrange(18, 22));
        lemma_pow256();
    }
    let total: u128 = 22 + body_len;
    if (buf.len() as u128) < total {
        return Ok(None);
    }
    let end = total as usize;
    let mut body: Vec<u8> = Vec::new();
    let mut i: usize = HEADER_LEN;
    while i < end
        invariant
            HEADER_LEN <= i <= end <= buf@.len(),
            body@ == buf@.subrange(HEADER_LEN as int, i as int),
        decreases end - i,
    {
        body.push(buf[i]);
        i += 1;
        assert(body@ =~= buf@.subrange(HEADER_LEN as int, i as int));
    }
    Ok(Some((DecodedFrame { version, kind, request_id, body }, end)))
}

/// The framing of a connection, in both directions: frames are taken from
/// what was received, and encoded frames are appended to what is to be sent.
#[derive(Default)]
pub struct MaraCodec;

impl MaraCodec {
    /// Takes one complete frame off the front of the received bytes.
    pub fn decode(&mut self, src: &mut Vec<u8>) -> (r: ProtoResult<Option<DecodedFrame>>)
        ensures
            match r {
                Ok(Some(f)) => decoded_frame(old(src)@) matches Ok(Some((v, n))) && f@ == v && final(src)@ == old(src)@.skip(n as int),
                Ok(None) => decoded_frame(old(src)@) == Ok::<Option<(FrameView, nat)>, ProtoError>(None) && final(src)@ == old(src)@,
                Err(e) => decoded_frame(old(src)@) == Err::<Option<(FrameView, nat)>, ProtoError>(e) && final(src)@ == old(src)@,
            },
    {
        match try_decode_frame(src.as_slice()) {
            Ok(Some((frame, consumed))) => {
                let ghost n = consumed as nat;
                assert(decoded_frame(src@) == Ok::<Option<(FrameView, nat)>, ProtoError>(Some((frame@, n))));
                let rest = src.split_off(consumed);
                *src = rest;
                assert(src@ =~= old(src)@.skip(n as int));
                Ok(Some(frame))
            },
            Ok(None) => Ok(None),
            Err(e) => Err(e),
        }
    }

    /// Appends an encoded frame to the bytes to be sent.
    pub fn encode(&mut self, item: Vec<u8>, dst: &mut Vec<u8>)
        ensures
            final(dst)@ == old(dst)@ + item@,
    {
        let mut item = item;
        let ghost bytes = item@;
        dst.append(&mut item);
    }
}

/// A frame decodes to what was put into it, whatever follows it in the
/// buffer; what follows is left for the next call.
pub proof fn frame_round_trips(kind: FrameKind, request_id: u128, body: Seq<u8>, rest: Seq<u8>)
    requires
        body.len() <= u32::MAX,
    ensures
        ({
            let bytes = frame_bytes(kind, request_id, body);
            &&& bytes.len() == HEADER_LEN + body.len()
            &&& decoded_frame(bytes + rest) == Ok::<Option<(FrameView, nat)>, ProtoError>(Some((
                FrameView { version: PROTOCOL_VERSION, kind, request_id, body },
                bytes.len(),
            )))
            &&& (bytes + rest).skip(bytes.len() as int) == rest
        }),
{
    let bytes = frame_bytes(kind, request_id, body);
    let buf = bytes + rest;
    lemma_pow256();
    be_bytes_read_back(request_id as nat, 16);
    be_bytes_read_back(body.len(), 4);
    assert(buf[0] == PROTOCOL_VERSION);
    assert(buf[1] == kind_byte(kind));
    assert(buf.subrange(2, 18) =~= be_bytes(request_id as nat, 16));
    assert(buf.subrange(18, 22) =~= be_bytes(body.len(), 4));
    assert(buf.subrange(22, (22 + body.len()) as int) =~= body);
    assert(buf.skip(bytes.len() as int) =~= rest);
}

/// A frame of which only a part has arrived is not taken for an error.
pub proof fn incomplete_frame_is_no_error(kind: FrameKind, request_id: u128, body: Seq<u8>, n: int)
    requires
        body.len() <= u32::MAX,
        0 <= n < frame_bytes(kind, request_id, body).len(),
    ensures
        decoded_frame(frame_bytes(kind, request_id, body).take(n)) == Ok::<Option<(FrameView, nat)>, ProtoError>(None),
{
    let bytes = frame_bytes(kind, request_id, body);
    let part = bytes.take(n);
    lemma_pow256();
    be_bytes_read_back(request_id as nat, 16);
    be_bytes_read_back(body.len(), 4);
    if n >= HEADER_LEN {
        assert(part[0] == PROTOCOL_VERSION);
        assert(part[1] == kind_byte(kind));
        assert(part.subrange(18, 22) =~= be_bytes(body.len(), 4));
    }
}

/// A frame of another version is refused as soon as its header is there.
pub proof fn other_versions_are_refused(buf: Seq<u8>)
    requires
        buf.len() >= HEADER_LEN,
        buf[0] != PROTOCOL_VERSION,
    ensures
        decoded_frame(buf) == Err::<Option<(FrameView, nat)>, ProtoError>(ProtoError::UnsupportedVersion(buf[0], PROTOCOL_VERSION)),
{
}

} // verus!
