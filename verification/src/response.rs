//! HTTP responses and their byte-exact serialization: status line, the fixed
//! server identifier, content type and length, extra headers, a blank line,
//! then the body.
use vstd::prelude::*;
use vstd::string::*;

use crate::content_types;
use crate::dec;

verus! {

/// A byte sub-range of a buffer.
pub struct SliceBody {
    pub data: Vec<u8>,
    pub start: usize,
    pub end: usize,
}

impl SliceBody {
    pub open spec fn wf(&self) -> bool {
        self.start <= self.end <= self.data@.len()
    }

    /// The bytes of the span.
    pub open spec fn bytes(&self) -> Seq<u8> {
        self.data@.subrange(self.start as int, self.end as int)
    }
}

/// A response body: a full byte span, a byte sub-range of a span, an owned
/// buffer, or nothing.
pub enum ResponseBody {
    Full(Vec<u8>),
    Slice(SliceBody),
    Owned(Vec<u8>),
    Empty,
}

impl ResponseBody {
    pub open spec fn wf(&self) -> bool {
        match self {
            ResponseBody::Slice(s) => s.wf(),
            _ => true,
        }
    }

    /// The bytes the body stands for, over all variants uniformly.
    pub open spec fn bytes(&self) -> Seq<u8> {
        match self {
            ResponseBody::Full(d) => d@,
            ResponseBody::Slice(s) => s.bytes(),
            ResponseBody::Owned(d) => d@,
            ResponseBody::Empty => Seq::empty(),
        }
    }

    /// The body length in bytes.
    pub fn len(&self) -> (r: usize)
        requires
            self.wf(),
        ensures
            r == self.bytes().len(),
    {
        match self {
            ResponseBody::Full(d) => d.len(),
            ResponseBody::Slice(s) => s.end - s.start,
            ResponseBody::Owned(d) => d.len(),
            ResponseBody::Empty => 0,
        }
    }

    /// A copy of the body bytes.
    pub fn to_vec(&self) -> (r: Vec<u8>)
        requires
            self.wf(),
        ensures
            r@ == self.bytes(),
    {
        match self {
            ResponseBody::Full(d) => crate::bytes::copy_vec(d),
            ResponseBody::Slice(s) => crate::bytes::sub_vec(&s.data, s.start, s.end),
            ResponseBody::Owned(d) => crate::bytes::copy_vec(d),
            ResponseBody::Empty => Vec::new(),
        }
    }

    /// The body cut into chunks of `chunk_size` bytes, the last one shorter
    /// when the length is no multiple of it.
    pub fn chunks(&self, chunk_size: usize) -> (r: Vec<Vec<u8>>)
        requires
            self.wf(),
            chunk_size > 0,
        ensures
            forall|i: int|
                0 <= i < r@.len() ==> (#[trigger] r@[i])@ == self.bytes().subrange(
                    i * chunk_size,
                    if (i + 1) * chunk_size <= self.bytes().len() {
                        (i + 1) * chunk_size
                    } else {
                        self.bytes().len() as int
                    },
                ),
            r@.len() * chunk_size >= self.bytes().len(),
            self.bytes().len() == 0 ==> r@.len() == 0,
            self.bytes().len() > 0 ==> (r@.len() - 1) * chunk_size < self.bytes().len(),
    {
        let whole = self.to_vec();
        let n = whole.len();
        let mut r: Vec<Vec<u8>> = Vec::new();
        let mut pos: usize = 0;
        proof {
            assert(r@.len() * chunk_size == 0) by (nonlinear_arith)
                requires
                    r@.len() == 0,
            ;
        }
        while pos < n
            invariant
                n == self.bytes().len(),
                whole@ == self.bytes(),
                pos <= n,
                pos == r@.len() * chunk_size,
                chunk_size > 0,
                forall|i: int|
                    0 <= i < r@.len() ==> (#[trigger] r@[i])@ == self.bytes().subrange(
                        i * chunk_size,
                        if (i + 1) * chunk_size <= self.bytes().len() {
                            (i + 1) * chunk_size
                        } else {
                            self.bytes().len() as int
                        },
                    ),
            decreases n - pos,
        {
            let next: usize = if n - pos < chunk_size {
                n
            } else {
                pos + chunk_size
            };
            let chunk = crate::bytes::sub_vec(&whole, pos, next);
            let ghost k = r@.len() as int;
            r.push(chunk);
            proof {
                assert((k + 1) * chunk_size == k * chunk_size + chunk_size) by (nonlinear_arith);
                assert(forall|i: int|
                    0 <= i < k ==> (#[trigger] r@[i])@ == self.bytes().subrange(
                        i * chunk_size,
                        if (i + 1) * chunk_size <= self.bytes().len() {
                            (i + 1) * chunk_size
                        } else {
                            self.bytes().len() as int
                        },
                    ));
            }
            if next == n && n - pos < chunk_size {
                proof {
                    assert((k + 1) * chunk_size == k * chunk_size + chunk_size) by (nonlinear_arith);
                }
                return r;
            }
            pos = next;
        }
        proof {
            if self.bytes().len() > 0 {
                assert((r@.len() - 1) * chunk_size == r@.len() * chunk_size - chunk_size)
                    by (nonlinear_arith);
            } else {
                let k = r@.len();
                assert(k * chunk_size == 0 && chunk_size > 0 ==> k == 0) by (nonlinear_arith);
            }
        }
        r
    }
}

/// A response: protocol version, status, content type, extra header lines,
/// body, and an optional explicit content length (used for `HEAD`).
pub struct Response {
    pub version_major: u8,
    pub version_minor: u8,
    pub status: u16,
    pub content_type: Vec<u8>,
    pub headers: Vec<Vec<u8>>,
    pub body: ResponseBody,
    pub content_length_override: Option<usize>,
}

/// The reason phrase of a status code; unknown codes fall back to the 500
/// phrase.
pub open spec fn spec_status_text(status: u16) -> &'static str {
    if status == 200 {
        "OK"
    } else if status == 201 {
        "Created"
    } else if status == 202 {
        "Accepted"
    } else if status == 204 {
        "No Content"
    } else if status == 205 {
        "Reset Content"
    } else if status == 206 {
        "Partial Content"
    } else if status == 400 {
        "Bad Request"
    } else if status == 401 {
        "Unauthorized"
    } else if status == 403 {
        "Forbidden"
    } else if status == 404 {
        "Not Found"
    } else if status == 405 {
        "Method Not Allowed"
    } else if status == 500 {
        "Internal Server Error"
    } else if status == 503 {
        "Service Unavailable"
    } else {
        "Internal Server Error"
    }
}

/// The reason phrase as bytes.
pub open spec fn spec_status_message(status: u16) -> Seq<u8> {
    spec_status_text(status).spec_bytes()
}

/// The reason phrase of a status code.
pub fn status_to_message(status: u16) -> (r: String)
    ensures
        r@ == spec_status_text(status)@,
{
    match status {
        200 => "OK".to_owned(),
        201 => "Created".to_owned(),
        202 => "Accepted".to_owned(),
        204 => "No Content".to_owned(),
        205 => "Reset Content".to_owned(),
        206 => "Partial Content".to_owned(),
        400 => "Bad Request".to_owned(),
        401 => "Unauthorized".to_owned(),
        403 => "Forbidden".to_owned(),
        404 => "Not Found".to_owned(),
        405 => "Method Not Allowed".to_owned(),
        500 => "Internal Server Error".to_owned(),
        503 => "Service Unavailable".to_owned(),
        _ => "Internal Server Error".to_owned(),
    }
}

fn status_message_bytes(status: u16) -> (r: Vec<u8>)
    ensures
        r@ == spec_status_message(status),
{
    let m = status_to_message(status);
    m.as_str().as_bytes_vec()
}

/// Appends `s` to `out`.
pub fn append_bytes(out: &mut Vec<u8>, s: &Vec<u8>)
    ensures
        final(out)@ == old(out)@ + s@,
{
    let mut i: usize = 0;
    while i < s.len()
        invariant
            i <= s@.len(),
            out@ == old(out)@ + s@.subrange(0, i as int),
        decreases s@.len() - i,
    {
        out.push(s[i]);
        proof {
            assert(old(out)@ + s@.subrange(0, i + 1) =~= (old(out)@ + s@.subrange(0, i as int)).push(
                s@[i as int],
            ));
        }
        i = i + 1;
    }
    proof {
        assert(s@.subrange(0, s@.len() as int) =~= s@);
    }
}

/// Appends an ASCII literal to `out`.
fn append_lit(out: &mut Vec<u8>, s: &str)
    ensures
        final(out)@ == old(out)@ + s.spec_bytes(),
{
    let b = s.as_bytes_vec();
    append_bytes(out, &b);
}

/// The whole header block: each line followed by CRLF.
pub open spec fn spec_header_block(hs: Seq<Seq<u8>>, i: int) -> Seq<u8>
    decreases hs.len() - i,
{
    if 0 <= i < hs.len() {
        hs[i] + "\r\n".spec_bytes() + spec_header_block(hs, i + 1)
    } else {
        Seq::empty()
    }
}

/// The content length the head announces: the explicit override when there is
/// one (a `HEAD` response), else the body length.
pub open spec fn spec_content_length(r: &Response) -> nat {
    match r.content_length_override {
        Some(l) => l as nat,
        None => r.body.bytes().len(),
    }
}

/// The serialized head: status line, the fixed server identifier, content
/// type, content length, the extra headers, and a blank line.
pub open spec fn spec_serialize_head(r: &Response) -> Seq<u8> {
    "HTTP/".spec_bytes() + dec::spec_dec(r.version_major as nat) + ".".spec_bytes()
        + dec::spec_dec(r.version_minor as nat) + " ".spec_bytes() + dec::spec_dec(
        r.status as nat,
    ) + " ".spec_bytes() + spec_status_message(r.status) + "\r\n".spec_bytes()
        + "Server: site-3ds\r\n".spec_bytes() + "Content-Type: ".spec_bytes() + r.content_type@
        + "\r\n".spec_bytes() + "Content-Length: ".spec_bytes() + dec::spec_dec(
        spec_content_length(r),
    ) + "\r\n".spec_bytes() + spec_header_block(crate::bytes::views_of(r.headers@), 0)
        + "\r\n".spec_bytes()
}

/// The whole serialized response: the head, then the body bytes.
pub open spec fn spec_serialize_response(r: &Response) -> Seq<u8> {
    spec_serialize_head(r) + r.body.bytes()
}

impl Response {
    pub open spec fn wf(&self) -> bool {
        self.body.wf()
    }

    /// A plain-text empty 200 response.
    pub fn new() -> (r: Response)
        ensures
            r.version_major == 1 && r.version_minor == 1,
            r.status == 200,
            r.content_type@ == content_types::spec_plain(),
            r.headers@ == Seq::<Vec<u8>>::empty(),
            r.body is Empty,
            r.content_length_override is None,
            r.wf(),
    {
        Response {
            version_major: 1,
            version_minor: 1,
            status: 200,
            content_type: content_types::plain(),
            headers: Vec::new(),
            body: ResponseBody::Empty,
            content_length_override: None,
        }
    }

    /// Serializes the head.
    pub fn serialize_head(&self) -> (r: Vec<u8>)
        requires
            self.wf(),
        ensures
            r@ == spec_serialize_head(self),
    {
        let mut out: Vec<u8> = Vec::new();
        append_lit(&mut out, "HTTP/");
        let d = dec::format_u64(self.version_major as u64);
        append_bytes(&mut out, &d);
        append_lit(&mut out, ".");
        let d = dec::format_u64(self.version_minor as u64);
        append_bytes(&mut out, &d);
        append_lit(&mut out, " ");
        let d = dec::format_u64(self.status as u64);
        append_bytes(&mut out, &d);
        append_lit(&mut out, " ");
        let d = status_message_bytes(self.status);
        append_bytes(&mut out, &d);
        append_lit(&mut out, "\r\n");
        append_lit(&mut out, "Server: site-3ds\r\n");
        append_lit(&mut out, "Content-Type: ");
        append_bytes(&mut out, &self.content_type);
        append_lit(&mut out, "\r\n");
        append_lit(&mut out, "Content-Length: ");
        let cl: usize = match self.content_length_override {
            Some(l) => l,
            None => self.body.len(),
        };
        let d = dec::format_usize(cl);
        append_bytes(&mut out, &d);
        append_lit(&mut out, "\r\n");
        let ghost fixed = out@;
        let ghost hs = crate::bytes::views_of(self.headers@);
        let mut i: usize = 0;
        while i < self.headers.len()
            invariant
                i <= self.headers@.len(),
                hs == crate::bytes::views_of(self.headers@),
                hs.len() == self.headers@.len(),
                fixed + spec_header_block(hs, 0) == out@ + spec_header_block(hs, i as int),
            decreases self.headers@.len() - i,
        {
            let ghost pre = out@;
            append_bytes(&mut out, &self.headers[i]);
            append_lit(&mut out, "\r\n");
            proof {
                assert(hs[i as int] == self.headers@[i as int]@);
                assert(out@ =~= pre + (hs[i as int] + "\r\n".spec_bytes()));
                assert(spec_header_block(hs, i as int) == hs[i as int] + "\r\n".spec_bytes()
                    + spec_header_block(hs, i + 1));
                assert(pre + (hs[i as int] + "\r\n".spec_bytes() + spec_header_block(
                    hs,
                    i + 1,
                )) =~= out@ + spec_header_block(hs, i + 1));
            }
            i = i + 1;
        }
        proof {
            assert(spec_header_block(hs, hs.len() as int) =~= Seq::<u8>::empty());
            assert(out@ =~= fixed + spec_header_block(hs, 0));
        }
        append_lit(&mut out, "\r\n");
        proof {
            assert(out@ =~= spec_serialize_head(self));
        }
        out
    }

    /// Serializes the whole response.
    pub fn serialize(&self) -> (r: Vec<u8>)
        requires
            self.wf(),
        ensures
            r@ == spec_serialize_response(self),
    {
        let mut out = self.serialize_head();
        let b = self.body.to_vec();
        append_bytes(&mut out, &b);
        out
    }
}


/// The fixed 500 page, sent when a request cannot be parsed.
pub open spec fn spec_internal_error_body() -> Seq<u8> {
    "<html><body><h1>500 Internal Server Error</h1></body></html>".spec_bytes()
}

/// The fixed 503 page, sent when every eligible queue is full.
pub open spec fn spec_service_unavailable_body() -> Seq<u8> {
    "<html><body><h1>503 Service Unavailable</h1></body></html>".spec_bytes()
}

/// The fixed 500 response for an unparsable request.
pub fn internal_server_error() -> (r: Response)
    ensures
        r.wf(),
        r.status == 500,
        r.content_type@ == content_types::spec_html(),
        r.body.bytes() == spec_internal_error_body(),
        r.headers@ == Seq::<Vec<u8>>::empty(),
        r.content_length_override is None,
{
    let mut r = Response::new();
    r.status = 500;
    r.content_type = content_types::html();
    r.body = ResponseBody::Owned(
        "<html><body><h1>500 Internal Server Error</h1></body></html>".as_bytes_vec(),
    );
    r
}

/// The fixed 503 response for a rejected job.
pub fn service_unavailable() -> (r: Response)
    ensures
        r.wf(),
        r.status == 503,
        r.content_type@ == content_types::spec_html(),
        r.body.bytes() == spec_service_unavailable_body(),
        r.headers@ == Seq::<Vec<u8>>::empty(),
        r.content_length_override is None,
{
    let mut r = Response::new();
    r.status = 503;
    r.content_type = content_types::html();
    r.body = ResponseBody::Owned(
        "<html><body><h1>503 Service Unavailable</h1></body></html>".as_bytes_vec(),
    );
    r
}

} // verus!

