use vstd::prelude::*;
use vstd::string::StringSliceAdditionalSpecFns;
use vstd::utf8::*;

use byteorder::{BigEndian, ByteOrder};

use crate::utf8_input::str_from_utf8;

verus! {

/// The eight bytes of `n`, most significant first.
pub open spec fn be_u64_bytes(n: u64) -> Seq<u8> {
    seq![
        (n >> 56u64) as u8,
        (n >> 48u64) as u8,
        (n >> 40u64) as u8,
        (n >> 32u64) as u8,
        (n >> 24u64) as u8,
        (n >> 16u64) as u8,
        (n >> 8u64) as u8,
        n as u8,
    ]
}

/// The number whose big-endian bytes are the first eight of `b`.
pub open spec fn be_u64_value(b: Seq<u8>) -> u64 {
    ((b[0] as u64) << 56u64) | ((b[1] as u64) << 48u64) | ((b[2] as u64) << 40u64) | ((b[3] as u64)
        << 32u64) | ((b[4] as u64) << 24u64) | ((b[5] as u64) << 16u64) | ((b[6] as u64) << 8u64)
        | (b[7] as u64)
}

/// Relies on byteorder's `BigEndian::write_u64`: it stores `n` in eight bytes, most
/// significant first.
#[verifier::external_body]
fn write_be_u64(n: u64) -> (r: Vec<u8>)
    ensures
        r@ == be_u64_bytes(n),
{
    let mut b = vec![0u8; 8];
    BigEndian::write_u64(&mut b, n);
    b
}

/// Relies on byteorder's `BigEndian::read_u64`: it reads the first eight bytes as a
/// number, most significant first. It panics on fewer than eight bytes.
#[verifier::external_body]
fn read_be_u64(b: &[u8]) -> (r: u64)
    requires
        b@.len() >= 8,
    ensures
        r == be_u64_value(b@),
{
    BigEndian::read_u64(b)
}

pub proof fn lemma_be_u64_round_trip(n: u64)
    ensures
        be_u64_value(be_u64_bytes(n)) == n,
{
    let b = be_u64_bytes(n);
    let (b0, b1, b2, b3, b4, b5, b6, b7) = (b[0], b[1], b[2], b[3], b[4], b[5], b[6], b[7]);
    assert(b0 == (n >> 56u64) as u8 && b1 == (n >> 48u64) as u8 && b2 == (n >> 40u64) as u8 && b3 == (n >> 32u64) as u8
        && b4 == (n >> 24u64) as u8 && b5 == (n >> 16u64) as u8 && b6 == (n >> 8u64) as u8 && b7 == n as u8);
    assert(b0 == (n >> 56u64) as u8 && b1 == (n >> 48u64) as u8 && b2 == (n >> 40u64) as u8 && b3 == (n >> 32u64) as u8
        && b4 == (n >> 24u64) as u8 && b5 == (n >> 16u64) as u8 && b6 == (n >> 8u64) as u8 && b7 == n as u8 ==> ((b0 as u64) << 56u64) | ((b1 as u64) << 48u64) | ((b2 as u64) << 40u64) | ((b3 as u64)
        << 32u64) | ((b4 as u64) << 24u64) | ((b5 as u64) << 16u64) | ((b6 as u64) << 8u64)
        | (b7 as u64) == n) by (bit_vector);
}

/// The bytes of one frame: the kind byte, the payload length as eight big-endian bytes,
/// then the payload.
pub open spec fn frame(kind: u8, payload: Seq<u8>) -> Seq<u8> {
    seq![kind] + be_u64_bytes(payload.len() as u64) + payload
}

/// The payload length that the header at the start of `b` declares.
pub open spec fn declared_len(b: Seq<u8>) -> int {
    be_u64_value(b.subrange(1, 9)) as int
}

/// `b` begins with a whole frame: a header and as many payload bytes as it declares.
pub open spec fn complete_frame(b: Seq<u8>) -> bool {
    b.len() >= 9 && b.len() >= 9 + declared_len(b)
}

/// The payload of the frame at the start of `b`.
pub open spec fn frame_payload(b: Seq<u8>) -> Seq<u8> {
    b.subrange(9, 9 + declared_len(b))
}

/// A payload the decoder accepts: none, or UTF-8 text.
pub open spec fn text_payload(p: Seq<u8>) -> bool {
    p.len() == 0 || valid_utf8(p)
}

/// Why a message could not be decoded or interpreted.
#[derive(Clone, Copy, Debug, PartialEq, Eq, Structural)]
pub enum CodecError {
    /// The bytes end before the frame does.
    UnexpectedEof,
    /// A payload that should be text is not UTF-8.
    InvalidData,
    /// An unknown message kind, or a missing payload.
    InvalidInput,
    /// A streamed payload where a message is read back into memory.
    Unsupported,
}

/// A payload read from a source of type `S` as the message is written, and its length.
pub struct StreamContent<S> {
    pub stream: S,
    pub len: u64,
}

/// A payload: text held in memory, or a stream.
pub enum MessageContent<S> {
    String(String),
    Stream(StreamContent<S>),
}

/// One frame of the protocol: `kind`, the payload length `len`, and the payload.
pub struct Message<S> {
    pub kind: u8,
    pub len: u64,
    pub content: Option<MessageContent<S>>,
}

/// The bytes of a payload held in memory; nothing for a stream.
pub open spec fn payload_bytes<S>(content: Option<MessageContent<S>>) -> Seq<u8> {
    match content {
        Some(MessageContent::String(s)) => encode_utf8(s@),
        _ => Seq::empty(),
    }
}

pub open spec fn is_stream<S>(content: Option<MessageContent<S>>) -> bool {
    content matches Some(MessageContent::Stream(_))
}

impl<S> Message<S> {
    /// The length field agrees with the payload.
    pub open spec fn wf(&self) -> bool {
        match self.content {
            Some(MessageContent::Stream(sc)) => self.len == sc.len,
            _ => self.len as int == payload_bytes(self.content).len(),
        }
    }

    pub fn from_string(kind: u8, s: String) -> (r: Message<S>)
        ensures
            r.wf(),
            r.kind == kind,
            r.content matches Some(MessageContent::String(t)) && t@ == s@,
    {
        let n = s.as_str().as_bytes().len();
        let len = n as u64;
        Message { kind, len, content: Some(MessageContent::String(s)) }
    }

    pub fn from_stream_content(kind: u8, stream_content: StreamContent<S>) -> (r: Message<S>)
        ensures
            r.wf(),
            r.kind == kind,
            r.len == stream_content.len,
            r.content matches Some(MessageContent::Stream(sc)) && sc == stream_content,
    {
        let len = stream_content.len;
        Message { kind, len, content: Some(MessageContent::Stream(stream_content)) }
    }

    pub fn empty(kind: u8) -> (r: Message<S>)
        ensures
            r.wf(),
            r.kind == kind,
            r.len == 0,
            r.content is None,
    {
        Message { kind, len: 0, content: None }
    }

    /// The nine header bytes: the kind, then the payload length, most significant byte
    /// first.
    pub fn header(&self) -> (r: Vec<u8>)
        ensures
            r@ == seq![self.kind] + be_u64_bytes(self.len),
    {
        let mut r: Vec<u8> = Vec::new();
        r.push(self.kind);
        let len_bytes = write_be_u64(self.len);
        let mut i: usize = 0;
        while i < 8
            invariant
                len_bytes@ == be_u64_bytes(self.len),
                0 <= i <= 8,
                r@ == seq![self.kind] + len_bytes@.take(i as int),
            decreases 8 - i,
        {
            r.push(len_bytes[i]);
            proof {
                assert(len_bytes@.take(i + 1) =~= len_bytes@.take(i as int).push(len_bytes@[i as int]));
            }
            i = i + 1;
        }
        proof {
            assert(len_bytes@.take(8) =~= len_bytes@);
        }
        r
    }

    /// The whole frame, for a message whose payload is held in memory; `None` for a
    /// streamed payload, which is written after the header as it is read.
    pub fn encode(&self) -> (r: Option<Vec<u8>>)
        requires
            self.wf(),
        ensures
            is_stream(self.content) <==> r is None,
            r matches Some(b) ==> b@ == frame(self.kind, payload_bytes(self.content)),
    {
        let mut r = self.header();
        match &self.content {
            Some(MessageContent::Stream(_)) => None,
            Some(MessageContent::String(s)) => {
                let bytes = s.as_str().as_bytes();
                let ghost h = r@;
                let n = bytes.len();
                let mut i: usize = 0;
                while i < n
                    invariant
                        n == bytes@.len(),
                        0 <= i <= n,
                        r@ == h + bytes@.take(i as int),
                    decreases n - i,
                {
                    r.push(bytes[i]);
                    proof {
                        assert(bytes@.take(i + 1) =~= bytes@.take(i as int).push(bytes@[i as int]));
                    }
                    i = i + 1;
                }
                proof {
                    assert(bytes@.take(n as int) =~= bytes@);
                }
                Some(r)
            },
            None => {
                proof {
                    assert(r@ =~= frame(self.kind, Seq::<u8>::empty()));
                }
                Some(r)
            },
        }
    }

    /// The kind and the declared payload length in the header at the start of `bytes`.
    pub fn decode_header(bytes: &[u8]) -> (r: Result<(u8, u64), CodecError>)
        ensures
            bytes@.len() < 9 <==> r is Err,
            r is Err ==> r == Err::<(u8, u64), CodecError>(CodecError::UnexpectedEof),
            r matches Ok((kind, len)) ==> kind == bytes@[0] && len == declared_len(bytes@),
    {
        if bytes.len() < 9 {
            return Err(CodecError::UnexpectedEof);
        }
        let len_bytes = vstd::slice::slice_subrange(bytes, 1, 9);
        Ok((bytes[0], read_be_u64(len_bytes)))
    }

    /// Reads one frame from the start of `bytes`: the header, then exactly as many
    /// payload bytes as it declares, and no byte beyond them. Returns the message and
    /// the number of bytes it took.
    pub fn decode(bytes: &[u8]) -> (r: Result<(Message<S>, usize), CodecError>)
        ensures
            !complete_frame(bytes@) ==> r == Err::<(Message<S>, usize), CodecError>(CodecError::UnexpectedEof),
            complete_frame(bytes@) ==> (r is Ok <==> text_payload(frame_payload(bytes@))),
            r matches Err(e) ==> (e == CodecError::UnexpectedEof || e == CodecError::InvalidData),
            r matches Ok((m, k)) ==> {
                &&& k == 9 + declared_len(bytes@)
                &&& m.wf()
                &&& m.kind == bytes@[0]
                &&& m.len == declared_len(bytes@)
                &&& !is_stream(m.content)
                &&& payload_bytes(m.content) == frame_payload(bytes@)
                &&& (m.content is None <==> m.len == 0)
            },
    {
        if bytes.len() < 9 {
            return Err(CodecError::UnexpectedEof);
        }
        let kind = bytes[0];
        let len_bytes = vstd::slice::slice_subrange(bytes, 1, 9);
        let len = read_be_u64(len_bytes);
        let avail = bytes.len() - 9;
        if (avail as u64) < len {
            return Err(CodecError::UnexpectedEof);
        }
        let end = 9 + len as usize;
        if len == 0 {
            proof {
                assert(frame_payload(bytes@) =~= Seq::<u8>::empty());
            }
            return Ok((Message { kind, len, content: None }, end));
        }
        let payload = vstd::slice::slice_subrange(bytes, 9, end);
        match str_from_utf8(payload) {
            Ok(s) => {
                let text = s.to_owned();
                proof {
                    decode_utf8_encode_utf8(payload@);
                    encode_utf8_decode_utf8(s@);
                }
                Ok((Message { kind, len, content: Some(MessageContent::String(text)) }, end))
            },
            Err(_) => Err(CodecError::InvalidData),
        }
    }
}

/// Any frame of any kind and payload, followed by any bytes, is read back whole: its
/// header declares exactly its payload, and the decoder takes `9 + length` bytes and
/// stops there.
pub proof fn law_frame_discipline(kind: u8, payload: Seq<u8>, rest: Seq<u8>)
    requires
        payload.len() <= u64::MAX,
    ensures
        frame(kind, payload).len() == 9 + payload.len(),
        complete_frame(frame(kind, payload) + rest),
        (frame(kind, payload) + rest)[0] == kind,
        declared_len(frame(kind, payload) + rest) == payload.len(),
        frame_payload(frame(kind, payload) + rest) == payload,
{
    let b = frame(kind, payload) + rest;
    lemma_be_u64_round_trip(payload.len() as u64);
    assert(b.subrange(1, 9) =~= be_u64_bytes(payload.len() as u64));
    assert(b.subrange(9, 9 + payload.len() as int) =~= payload);
}


/// The payload of a message, which must be text held in memory.
pub fn requires_payload<S>(content: Option<MessageContent<S>>) -> (r: Result<String, CodecError>)
    ensures
        match content {
            None => r == Err::<String, CodecError>(CodecError::InvalidInput),
            Some(MessageContent::Stream(_)) => r == Err::<String, CodecError>(CodecError::Unsupported),
            Some(MessageContent::String(s)) => r matches Ok(t) && t@ == s@,
        },
{
    match content {
        None => Err(CodecError::InvalidInput),
        Some(MessageContent::String(s)) => Ok(s),
        Some(MessageContent::Stream(_)) => Err(CodecError::Unsupported),
    }
}

/// Turns a value into the message that carries it.
pub trait IntoMessage: Sized {
    /// Where a streamed payload of the message is read from.
    type Stream;

    fn into_message(self) -> Message<Self::Stream>;
}

/// Reads a value back out of the message that carries it.
pub trait FromMessage: Sized {
    fn from_message<S>(message: Message<S>) -> Result<Self, CodecError>;
}

/// What a client asks of the server.
pub enum Request {
    Ping,
    Query(String),
    QueryFile(String),
}

pub open spec fn request_kind(r: Request) -> u8 {
    match r {
        Request::Ping => 0,
        Request::Query(_) => 1,
        Request::QueryFile(_) => 2,
    }
}

/// The text a request carries: the query or the file path; nothing for a ping.
pub open spec fn request_text(r: Request) -> Seq<char> {
    match r {
        Request::Ping => Seq::empty(),
        Request::Query(s) => s@,
        Request::QueryFile(s) => s@,
    }
}

impl IntoMessage for Request {
    /// A request never streams its payload.
    type Stream = ();

    fn into_message(self) -> (m: Message<()>)
        ensures
            m.wf(),
            m.kind == request_kind(self),
            self is Ping ==> m.content is None,
            !(self is Ping) ==> (m.content matches Some(MessageContent::String(t)) && t@ == request_text(self)),
    {
        match self {
            Request::Ping => Message::empty(0),
            Request::Query(s) => Message::from_string(1, s),
            Request::QueryFile(s) => Message::from_string(2, s),
        }
    }
}

impl FromMessage for Request {
    fn from_message<S>(message: Message<S>) -> (r: Result<Request, CodecError>)
        ensures
            message.kind == 0 ==> r matches Ok(Request::Ping),
            message.kind == 1 || message.kind == 2 ==> match message.content {
                None => r == Err::<Request, CodecError>(CodecError::InvalidInput),
                Some(MessageContent::Stream(_)) => r == Err::<Request, CodecError>(CodecError::Unsupported),
                Some(MessageContent::String(s)) => r matches Ok(q) && request_kind(q) == message.kind && request_text(q) == s@,
            },
            message.kind > 2 ==> r == Err::<Request, CodecError>(CodecError::InvalidInput),
    {
        let Message { kind, content, .. } = message;
        match kind {
            0 => Ok(Request::Ping),
            1 => match requires_payload(content) {
                Ok(s) => Ok(Request::Query(s)),
                Err(e) => Err(e),
            },
            2 => match requires_payload(content) {
                Ok(s) => Ok(Request::QueryFile(s)),
                Err(e) => Err(e),
            },
            _ => Err(CodecError::InvalidInput),
        }
    }
}

/// What the server answers.
pub enum Response<S> {
    Pong,
    Error(String),
    /// The ranked documents, as a JSON array of `{document, rank}` objects.
    QueryResult(String),
    FileResult(MessageContent<S>),
}

pub open spec fn response_kind<S>(r: Response<S>) -> u8 {
    match r {
        Response::Pong => 0,
        Response::Error(_) => 1,
        Response::QueryResult(_) => 2,
        Response::FileResult(_) => 3,
    }
}

/// The content a response carries; nothing for a pong.
pub open spec fn response_content<S>(r: Response<S>) -> Option<MessageContent<S>> {
    match r {
        Response::Pong => None,
        Response::Error(s) => Some(MessageContent::String(s)),
        Response::QueryResult(s) => Some(MessageContent::String(s)),
        Response::FileResult(c) => Some(c),
    }
}

impl<S> IntoMessage for Response<S> {
    type Stream = S;

    fn into_message(self) -> (m: Message<S>)
        ensures
            m.wf(),
            m.kind == response_kind(self),
            match response_content(self) {
                None => m.content is None,
                Some(MessageContent::String(s)) => m.content matches Some(MessageContent::String(t)) && t@ == s@,
                Some(MessageContent::Stream(sc)) => m.content == Some(MessageContent::Stream(sc)),
            },
    {
        match self {
            Response::Pong => Message::empty(0),
            Response::Error(s) => Message::from_string(1, s),
            Response::QueryResult(s) => Message::from_string(2, s),
            Response::FileResult(MessageContent::String(s)) => Message::from_string(3, s),
            Response::FileResult(MessageContent::Stream(sc)) => Message::from_stream_content(3, sc),
        }
    }
}

impl<T> FromMessage for Response<T> {
    fn from_message<S>(message: Message<S>) -> (r: Result<Response<T>, CodecError>)
        ensures
            message.kind == 0 ==> r matches Ok(Response::Pong),
            1 <= message.kind <= 3 ==> match message.content {
                None => r == Err::<Response<T>, CodecError>(CodecError::InvalidInput),
                Some(MessageContent::Stream(_)) => r == Err::<Response<T>, CodecError>(CodecError::Unsupported),
                Some(MessageContent::String(s)) => r matches Ok(q) && response_kind(q) == message.kind
                    && (response_content(q) matches Some(MessageContent::String(t)) && t@ == s@),
            },
            message.kind > 3 ==> r == Err::<Response<T>, CodecError>(CodecError::InvalidInput),
    {
        let Message { kind, content, .. } = message;
        match kind {
            0 => Ok(Response::Pong),
            1 => match requires_payload(content) {
                Ok(s) => Ok(Response::Error(s)),
                Err(e) => Err(e),
            },
            2 => match requires_payload(content) {
                Ok(s) => Ok(Response::QueryResult(s)),
                Err(e) => Err(e),
            },
            3 => match requires_payload(content) {
                Ok(s) => Ok(Response::FileResult(MessageContent::String(s))),
                Err(e) => Err(e),
            },
            _ => Err(CodecError::InvalidInput),
        }
    }
}

/// The frame that carries a text payload `t` of kind `kind`: a ping or pong when `t` is
/// empty. Decoding it gives back the kind and exactly the text, with nothing left out
/// or added, so that a request, or a response held in memory, survives encoding and
/// decoding unchanged. A query, file path, error or result with empty text is sent
/// without a payload and is then read back as missing its payload.
pub proof fn law_text_frame_round_trip(kind: u8, t: Seq<char>)
    requires
        encode_utf8(t).len() <= u64::MAX,
    ensures
        complete_frame(frame(kind, encode_utf8(t))),
        frame(kind, encode_utf8(t))[0] == kind,
        text_payload(frame_payload(frame(kind, encode_utf8(t)))),
        decode_utf8(frame_payload(frame(kind, encode_utf8(t)))) == t,
        declared_len(frame(kind, encode_utf8(t))) == 0 <==> t.len() == 0,
        declared_len(frame(kind, encode_utf8(t))) + 9 == frame(kind, encode_utf8(t)).len(),
{
    let p = encode_utf8(t);
    law_frame_discipline(kind, p, Seq::empty());
    assert(frame(kind, p) + Seq::<u8>::empty() =~= frame(kind, p));
    encode_utf8_valid_utf8(t);
    encode_utf8_decode_utf8(t);
    if t.len() > 0 {
        assert(p.len() > 0) by {
            if p.len() == 0 {
                assert(decode_utf8(p) =~= Seq::<char>::empty());
            }
        }
    } else {
        assert(p =~= Seq::<u8>::empty());
    }
}

} // verus!
