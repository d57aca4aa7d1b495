//! Request and response framing: the 4-byte size prefix and the request header.
use vstd::prelude::*;
use crate::api::{ErrorCode, error_code_value};
use crate::codec::{
    bytes_at, get_i16, get_i32, get_u8, i16_bytes, i32_bytes, i8_bytes, put_bytes, put_i16,
    put_i32, put_u8, copy_range, window, lemma_i16_bytes_injective, lemma_i32_bytes_injective,
};

verus! {

/// The largest message size accepted by default: 16 MiB.
pub const DEFAULT_MAX_MESSAGE_SIZE: i32 = 16777216;

/// Header of a request (version 2).
#[derive(Debug, Clone)]
pub struct RequestHeader {
    pub api_key: i16,
    pub api_version: i16,
    pub correlation_id: i32,
    /// `None` when the wire carries the null length -1.
    pub client_id: Option<Vec<u8>>,
}

pub open spec fn opt_view(o: Option<Vec<u8>>) -> Option<Seq<u8>> {
    match o {
        Some(v) => Some(v@),
        None => None,
    }
}

/// A client id that the i16 length field can carry.
pub open spec fn client_id_fits(id: Option<Seq<u8>>) -> bool {
    match id {
        Some(s) => s.len() <= i16::MAX,
        None => true,
    }
}

pub open spec fn client_id_bytes(id: Option<Seq<u8>>) -> Seq<u8> {
    match id {
        Some(s) => i16_bytes(s.len() as i16) + s,
        None => i16_bytes(-1i16),
    }
}

/// The wire form of a request header, closed by an empty tag buffer.
pub open spec fn header_bytes(k: i16, v: i16, c: i32, id: Option<Seq<u8>>) -> Seq<u8> {
    i16_bytes(k) + i16_bytes(v) + i32_bytes(c) + client_id_bytes(id) + seq![0u8]
}

impl RequestHeader {
    pub open spec fn wf(&self) -> bool {
        client_id_fits(opt_view(self.client_id))
    }

    pub open spec fn spec_bytes(&self) -> Seq<u8> {
        header_bytes(self.api_key, self.api_version, self.correlation_id, opt_view(self.client_id))
    }

    /// The wire form of this header.
    pub fn to_bytes(&self) -> (r: Vec<u8>)
        requires
            self.wf(),
        ensures
            r@ == self.spec_bytes(),
    {
        let mut r: Vec<u8> = Vec::new();
        put_i16(&mut r, self.api_key);
        put_i16(&mut r, self.api_version);
        put_i32(&mut r, self.correlation_id);
        match &self.client_id {
            Some(id) => {
                put_i16(&mut r, id.len() as i16);
                put_bytes(&mut r, id.as_slice());
            },
            None => put_i16(&mut r, -1),
        }
        put_u8(&mut r, 0u8);
        assert(r@ =~= self.spec_bytes());
        r
    }

    /// Reads a header at `pos`. Succeeds exactly where a header's wire form
    /// stands there, and returns that header and the position after it.
    pub fn parse(b: &[u8], pos: usize) -> (r: Option<(RequestHeader, usize)>)
        ensures
            r matches Some((h, p)) ==> h.wf() && pos < p <= b@.len() && b@.subrange(
                pos as int,
                p as int,
            ) == h.spec_bytes(),
            forall|k: i16, v: i16, c: i32, id: Option<Seq<u8>>|
                client_id_fits(id) && #[trigger] bytes_at(b@, pos as int, header_bytes(k, v, c, id))
                    ==> (r matches Some((h, p)) && h.api_key == k && h.api_version == v
                    && h.correlation_id == c && opt_view(h.client_id) == id && p == pos
                    + header_bytes(k, v, c, id).len()),
    {
        if pos > b.len() || b.len() - pos < 11 {
            proof {
                assert forall|k: i16, v: i16, c: i32, id: Option<Seq<u8>>|
                    client_id_fits(id) && #[trigger] bytes_at(b@, pos as int, header_bytes(k, v, c, id))
                    implies false by {
                    lemma_header_fields(b@, pos as int, k, v, c, id);
                }
            }
            return None;
        }
        let (api_key, p1) = get_i16(b, pos).unwrap();
        let (api_version, p2) = get_i16(b, p1).unwrap();
        let (correlation_id, p3) = get_i32(b, p2).unwrap();
        let (id_len, p4) = get_i16(b, p3).unwrap();
        let ghost fields = |k: i16, v: i16, c: i32, id: Option<Seq<u8>>|
            k == api_key && v == api_version && c == correlation_id && id_len == match id {
                Some(s) => s.len() as i16,
                None => -1i16,
            };
        proof {
            assert forall|k: i16, v: i16, c: i32, id: Option<Seq<u8>>|
                client_id_fits(id) && #[trigger] bytes_at(b@, pos as int, header_bytes(k, v, c, id))
                implies fields(k, v, c, id) by {
                lemma_header_fields(b@, pos as int, k, v, c, id);
                lemma_i16_bytes_injective(k, api_key);
                lemma_i16_bytes_injective(v, api_version);
                lemma_i32_bytes_injective(c, correlation_id);
                match id {
                    Some(s) => lemma_i16_bytes_injective(s.len() as i16, id_len),
                    None => lemma_i16_bytes_injective(-1i16, id_len),
                }
            }
        }
        let (client_id, p5) = if id_len == -1 {
            (None, p4)
        } else if id_len < 0 || (id_len as usize) > b.len() - p4 {
            proof {
                assert forall|k: i16, v: i16, c: i32, id: Option<Seq<u8>>|
                    client_id_fits(id) && #[trigger] bytes_at(b@, pos as int, header_bytes(k, v, c, id))
                    implies false by {
                    assert(fields(k, v, c, id));
                    lemma_header_fields(b@, pos as int, k, v, c, id);
                }
            }
            return None;
        } else {
            let id = copy_range(b, p4, p4 + id_len as usize);
            (Some(id), p4 + id_len as usize)
        };
        match get_u8(b, p5) {
            Some((tag, p6)) => {
                if tag != 0 {
                    proof {
                        assert forall|k: i16, v: i16, c: i32, id: Option<Seq<u8>>|
                            client_id_fits(id) && #[trigger] bytes_at(b@, pos as int, header_bytes(k, v, c, id))
                            implies false by {
                            assert(fields(k, v, c, id));
                            lemma_header_fields(b@, pos as int, k, v, c, id);
                        }
                    }
                    return None;
                }
                let h = RequestHeader { api_key, api_version, correlation_id, client_id };
                proof {
                    assert(b@.subrange(pos as int, p6 as int) =~= h.spec_bytes());
                    assert forall|k: i16, v: i16, c: i32, id: Option<Seq<u8>>|
                        client_id_fits(id) && #[trigger] bytes_at(b@, pos as int, header_bytes(k, v, c, id))
                        implies opt_view(h.client_id) == id && p6 == pos + header_bytes(k, v, c, id).len() by {
                        assert(fields(k, v, c, id));
                        lemma_header_fields(b@, pos as int, k, v, c, id);
                    }
                }
                Some((h, p6))
            },
            None => {
                proof {
                    assert forall|k: i16, v: i16, c: i32, id: Option<Seq<u8>>|
                        client_id_fits(id) && #[trigger] bytes_at(b@, pos as int, header_bytes(k, v, c, id))
                        implies false by {
                        assert(fields(k, v, c, id));
                        lemma_header_fields(b@, pos as int, k, v, c, id);
                    }
                }
                None
            },
        }
    }
}

/// Where a header's wire form stands at `pos`, each field stands at its place.
proof fn lemma_header_fields(b: Seq<u8>, pos: int, k: i16, v: i16, c: i32, id: Option<Seq<u8>>)
    requires
        client_id_fits(id),
        bytes_at(b, pos, header_bytes(k, v, c, id)),
    ensures
        pos + 11 <= b.len(),
        window(b, pos, 2) == i16_bytes(k),
        window(b, pos + 2, 2) == i16_bytes(v),
        window(b, pos + 4, 4) == i32_bytes(c),
        id is None ==> window(b, pos + 8, 2) == i16_bytes(-1i16) && b[pos + 10] == 0,
        id matches Some(s) ==> window(b, pos + 8, 2) == i16_bytes(s.len() as i16) && pos + 11
            + s.len() <= b.len() && b.subrange(pos + 10, pos + 10 + s.len() as int) == s && b[pos + 10
            + s.len()] == 0,
        header_bytes(k, v, c, id).len() == 11 + match id {
            Some(s) => s.len() as int,
            None => 0,
        },
{
    let e = header_bytes(k, v, c, id);
    let w = b.subrange(pos, pos + e.len());
    assert(window(b, pos, 2) =~= w.subrange(0, 2));
    assert(window(b, pos + 2, 2) =~= w.subrange(2, 4));
    assert(window(b, pos + 4, 4) =~= w.subrange(4, 8));
    assert(window(b, pos + 8, 2) =~= w.subrange(8, 10));
    assert(e.subrange(0, 2) =~= i16_bytes(k));
    assert(e.subrange(2, 4) =~= i16_bytes(v));
    assert(e.subrange(4, 8) =~= i32_bytes(c));
    match id {
        Some(s) => {
            assert(e.subrange(8, 10) =~= i16_bytes(s.len() as i16));
            assert(e.subrange(10, 10 + s.len() as int) =~= s);
            assert(b.subrange(pos + 10, pos + 10 + s.len() as int) =~= w.subrange(10, 10 + s.len() as int));
            assert(b[pos + 10 + s.len()] == w[10 + s.len() as int]);
        },
        None => {
            assert(e.subrange(8, 10) =~= i16_bytes(-1i16));
            assert(b[pos + 10] == w[10]);
        },
    }
}

/// Header round-trip: a header's wire form, followed by anything, is the
/// wire form of no other header, so parsing it yields the same header (a
/// null client id and an empty one stay apart).
pub proof fn lemma_header_round_trip(
    k: i16,
    v: i16,
    c: i32,
    id: Option<Seq<u8>>,
    k2: i16,
    v2: i16,
    c2: i32,
    id2: Option<Seq<u8>>,
    rest: Seq<u8>,
)
    requires
        client_id_fits(id),
        client_id_fits(id2),
        bytes_at(header_bytes(k, v, c, id) + rest, 0, header_bytes(k2, v2, c2, id2)),
    ensures
        k2 == k && v2 == v && c2 == c && id2 == id,
{
    let b = header_bytes(k, v, c, id) + rest;
    assert(b.subrange(0, header_bytes(k, v, c, id).len() as int) =~= header_bytes(k, v, c, id));
    lemma_header_fields(b, 0, k, v, c, id);
    lemma_header_fields(b, 0, k2, v2, c2, id2);
    lemma_i16_bytes_injective(k, k2);
    lemma_i16_bytes_injective(v, v2);
    lemma_i32_bytes_injective(c, c2);
    match (id, id2) {
        (Some(s), Some(s2)) => {
            lemma_i16_bytes_injective(s.len() as i16, s2.len() as i16);
        },
        (Some(s), None) => {
            lemma_i16_bytes_injective(s.len() as i16, -1i16);
        },
        (None, Some(s2)) => {
            lemma_i16_bytes_injective(-1i16, s2.len() as i16);
        },
        (None, None) => {},
    }
}

/// Why a frame or its header was refused; each closes the connection.
#[derive(Debug, Clone, Copy, PartialEq, Eq, Structural)]
pub enum FrameError {
    /// Fewer than the four bytes of the size prefix.
    Truncated,
    /// The size prefix is not the number of bytes that follow it.
    SizeMismatch,
    /// The size prefix is negative.
    NegativeSize,
    /// The size prefix exceeds the ceiling.
    TooLarge,
    /// No well-formed request header follows the size prefix.
    MalformedHeader,
}

/// A framed request: size prefix, header, and the payload after the header.
#[derive(Debug)]
pub struct Request {
    pub message_size: i32,
    pub header: RequestHeader,
    pub payload: Vec<u8>,
}

impl Request {
    pub open spec fn wf(&self) -> bool {
        self.header.wf()
    }

    /// The frame this request was read from.
    pub open spec fn spec_frame(&self) -> Seq<u8> {
        i32_bytes(self.message_size) + self.header.spec_bytes() + self.payload@
    }

    /// Splits a whole frame (size prefix included) into its parts.
    pub fn parse(frame: &[u8]) -> (r: Result<Request, FrameError>)
        ensures
            r matches Ok(req) ==> req.wf() && frame@ == req.spec_frame() && req.message_size
                == frame@.len() - 4,
            r == Err::<Request, FrameError>(FrameError::Truncated) <==> frame@.len() < 4,
            r == Err::<Request, FrameError>(FrameError::SizeMismatch) <==> frame@.len() >= 4
                && !(i32_bytes((frame@.len() - 4) as i32) == frame@.subrange(0, 4) && frame@.len()
                - 4 <= i32::MAX),
            r == Err::<Request, FrameError>(FrameError::MalformedHeader) ==> forall|
                k: i16,
                v: i16,
                c: i32,
                id: Option<Seq<u8>>,
            |
                client_id_fits(id) ==> !#[trigger] bytes_at(frame@, 4, header_bytes(k, v, c, id)),
            r is Ok || r == Err::<Request, FrameError>(FrameError::Truncated) || r == Err::<
                Request,
                FrameError,
            >(FrameError::SizeMismatch) || r == Err::<Request, FrameError>(
                FrameError::MalformedHeader,
            ),
    {
        let (message_size, p) = match get_i32(frame, 0) {
            Some(x) => x,
            None => return Err(FrameError::Truncated),
        };
        if message_size < 0 || message_size as usize != frame.len() - 4 {
            proof {
                if frame@.len() - 4 <= i32::MAX && i32_bytes((frame@.len() - 4) as i32)
                    == frame@.subrange(0, 4) {
                    lemma_i32_bytes_injective((frame@.len() - 4) as i32, message_size);
                }
            }
            return Err(FrameError::SizeMismatch);
        }
        match RequestHeader::parse(frame, p) {
            Some((header, q)) => {
                let payload = copy_range(frame, q, frame.len());
                let req = Request { message_size, header, payload };
                assert(frame@ =~= req.spec_frame());
                Ok(req)
            },
            None => Err(FrameError::MalformedHeader),
        }
    }
}

/// What the bytes received so far on a connection hold.
#[derive(Debug, Clone, Copy, PartialEq, Eq, Structural)]
pub enum FrameStatus {
    /// More bytes are needed.
    Incomplete,
    /// The first `n` bytes are one whole frame.
    Complete(usize),
    /// The size prefix is refused.
    Rejected(FrameError),
}

/// Decides whether `buf` begins with a whole frame whose size prefix is
/// at most `max_size`.
pub fn frame_status(buf: &[u8], max_size: i32) -> (r: FrameStatus)
    ensures
        buf@.len() < 4 ==> r == FrameStatus::Incomplete,
        forall|n: i32|
            buf@.len() >= 4 && #[trigger] i32_bytes(n) == buf@.subrange(0, 4) ==> r == (if n < 0 {
                FrameStatus::Rejected(FrameError::NegativeSize)
            } else if n > max_size {
                FrameStatus::Rejected(FrameError::TooLarge)
            } else if buf@.len() < 4 + n {
                FrameStatus::Incomplete
            } else {
                FrameStatus::Complete((4 + n) as usize)
            }),
{
    match get_i32(buf, 0) {
        Some((n, _)) => {
            proof {
                assert forall|m: i32|
                    #[trigger] i32_bytes(m) == buf@.subrange(0, 4) implies m == n by {
                    lemma_i32_bytes_injective(m, n);
                }
            }
            if n < 0 {
                FrameStatus::Rejected(FrameError::NegativeSize)
            } else if n > max_size {
                FrameStatus::Rejected(FrameError::TooLarge)
            } else if buf.len() - 4 < n as usize {
                FrameStatus::Incomplete
            } else {
                FrameStatus::Complete(4 + n as usize)
            }
        },
        None => FrameStatus::Incomplete,
    }
}

/// A response frame: the body's length as a big-endian `i32`, then the body.
pub fn frame_response(body: &[u8]) -> (r: Vec<u8>)
    requires
        body@.len() <= i32::MAX,
    ensures
        r@ == i32_bytes(body@.len() as i32) + body@,
{
    let mut r: Vec<u8> = Vec::new();
    put_i32(&mut r, body.len() as i32);
    put_bytes(&mut r, body);
    r
}

/// The whole of a response that carries only an error: correlation id and
/// error code, after the size prefix.
#[derive(Debug)]
pub struct GeneralResponse {
    pub message_size: i32,
    pub error: ErrorCode,
    pub correlation_id: i32,
}

/// Body of a response that carries only an error.
pub open spec fn error_body(correlation_id: i32, error: ErrorCode) -> Seq<u8> {
    i32_bytes(correlation_id) + i16_bytes(error_code_value(error))
}

impl GeneralResponse {
    pub fn new(c_id: i32, error: ErrorCode) -> (r: GeneralResponse)
        ensures
            r.message_size == 6 && r.error == error && r.correlation_id == c_id,
    {
        GeneralResponse { message_size: 6, error, correlation_id: c_id }
    }

    /// The body: correlation id, then error code.
    pub fn body(&self) -> (r: Vec<u8>)
        ensures
            r@ == error_body(self.correlation_id, self.error),
    {
        let mut r: Vec<u8> = Vec::new();
        put_i32(&mut r, self.correlation_id);
        put_i16(&mut r, self.error.code());
        r
    }

    /// The framed response.
    pub fn to_bytes(&self) -> (r: Vec<u8>)
        ensures
            r@ == i32_bytes(self.message_size) + error_body(self.correlation_id, self.error),
    {
        let mut r: Vec<u8> = Vec::new();
        put_i32(&mut r, self.message_size);
        let b = self.body();
        put_bytes(&mut r, b.as_slice());
        r
    }
}

} // verus!
