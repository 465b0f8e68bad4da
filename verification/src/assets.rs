//! Static asset descriptors and their resolution into responses: content
//! negotiation over precompressed variants, and single byte-range handling.
use vstd::prelude::*;
use vstd::string::*;

use crate::bytes::{
    contains_sub, copy_vec, find_sub, lemma_find_props, spec_contains, spec_find,
    spec_starts_with, starts_with, sub_vec, views_of,
};
use crate::dec;
use crate::request::Request;
use crate::response::{Response, ResponseBody, SliceBody};

verus! {

pub const DASH: u8 = 45;

pub open spec fn enc_gzip() -> Seq<u8> {
    seq!['g' as u8, 'z' as u8, 'i' as u8, 'p' as u8]
}

pub open spec fn enc_deflate() -> Seq<u8> {
    seq!['d' as u8, 'e' as u8, 'f' as u8, 'l' as u8, 'a' as u8, 't' as u8, 'e' as u8]
}

pub open spec fn enc_br() -> Seq<u8> {
    seq!['b' as u8, 'r' as u8]
}

pub open spec fn enc_zstd() -> Seq<u8> {
    seq!['z' as u8, 's' as u8, 't' as u8, 'd' as u8]
}

pub open spec fn bytes_eq_prefix() -> Seq<u8> {
    seq!['b' as u8, 'y' as u8, 't' as u8, 'e' as u8, 's' as u8, '=' as u8]
}

fn enc_gzip_vec() -> (r: Vec<u8>)
    ensures
        r@ == enc_gzip(),
{
    let mut v: Vec<u8> = Vec::new();
    v.push('g' as u8);
    v.push('z' as u8);
    v.push('i' as u8);
    v.push('p' as u8);
    proof {
        assert(v@ =~= enc_gzip());
    }
    v
}

fn enc_deflate_vec() -> (r: Vec<u8>)
    ensures
        r@ == enc_deflate(),
{
    let mut v: Vec<u8> = Vec::new();
    v.push('d' as u8);
    v.push('e' as u8);
    v.push('f' as u8);
    v.push('l' as u8);
    v.push('a' as u8);
    v.push('t' as u8);
    v.push('e' as u8);
    proof {
        assert(v@ =~= enc_deflate());
    }
    v
}

fn enc_br_vec() -> (r: Vec<u8>)
    ensures
        r@ == enc_br(),
{
    let mut v: Vec<u8> = Vec::new();
    v.push('b' as u8);
    v.push('r' as u8);
    proof {
        assert(v@ =~= enc_br());
    }
    v
}

fn enc_zstd_vec() -> (r: Vec<u8>)
    ensures
        r@ == enc_zstd(),
{
    let mut v: Vec<u8> = Vec::new();
    v.push('z' as u8);
    v.push('s' as u8);
    v.push('t' as u8);
    v.push('d' as u8);
    proof {
        assert(v@ =~= enc_zstd());
    }
    v
}

fn bytes_eq_prefix_vec() -> (r: Vec<u8>)
    ensures
        r@ == bytes_eq_prefix(),
{
    let mut v: Vec<u8> = Vec::new();
    v.push('b' as u8);
    v.push('y' as u8);
    v.push('t' as u8);
    v.push('e' as u8);
    v.push('s' as u8);
    v.push('=' as u8);
    proof {
        assert(v@ =~= bytes_eq_prefix());
    }
    v
}

/// A static asset: path, allowed method, content type, raw body, and up to
/// four precompressed variants.
pub struct ServeRequest {
    pub method: Vec<u8>,
    pub path: Vec<u8>,
    pub content_type: Vec<u8>,
    pub body: Vec<u8>,
    pub body_deflate: Option<Vec<u8>>,
    pub body_gzip: Option<Vec<u8>>,
    pub body_br: Option<Vec<u8>>,
    pub body_zstd: Option<Vec<u8>>,
}

/// One negotiation step: a variant replaces the current choice when the
/// client accepts its name and it is strictly smaller.
pub open spec fn spec_pick(
    cur: (Seq<u8>, Seq<u8>),
    var: Option<Vec<u8>>,
    name: Seq<u8>,
    ae: Seq<u8>,
) -> (Seq<u8>, Seq<u8>) {
    match var {
        Some(v) => if spec_contains(ae, name) && v@.len() < cur.0.len() {
            (v@, name)
        } else {
            cur
        },
        None => cur,
    }
}

/// The negotiated body and encoding name: variants are offered in the fixed
/// order gzip, deflate, br, zstd, each taken only when accepted and strictly
/// smaller than the best so far — so the result is the smallest accepted
/// variant, ties going to the earliest in that order, and never larger than
/// the raw body. An empty encoding name means the raw body.
pub open spec fn spec_negotiate(asset: &ServeRequest, ae: Seq<u8>) -> (Seq<u8>, Seq<u8>) {
    let c0 = (asset.body@, Seq::<u8>::empty());
    let c1 = spec_pick(c0, asset.body_gzip, enc_gzip(), ae);
    let c2 = spec_pick(c1, asset.body_deflate, enc_deflate(), ae);
    let c3 = spec_pick(c2, asset.body_br, enc_br(), ae);
    spec_pick(c3, asset.body_zstd, enc_zstd(), ae)
}

/// With no accepted encodings at all, negotiation serves the raw asset body.
pub proof fn law_raw_body_without_encoding(asset: &ServeRequest)
    ensures
        spec_negotiate(asset, Seq::<u8>::empty()).0 == asset.body@,
        spec_negotiate(asset, Seq::<u8>::empty()).1 == Seq::<u8>::empty(),
{
    assert(!spec_contains(Seq::<u8>::empty(), enc_gzip()));
    assert(!spec_contains(Seq::<u8>::empty(), enc_deflate()));
    assert(!spec_contains(Seq::<u8>::empty(), enc_br()));
    assert(!spec_contains(Seq::<u8>::empty(), enc_zstd()));
}

/// A string with its trailing dashes removed.
pub open spec fn spec_trim_trailing_dash(s: Seq<u8>) -> Seq<u8>
    decreases s.len(),
{
    if s.len() > 0 && s.last() == DASH {
        spec_trim_trailing_dash(s.drop_last())
    } else {
        s
    }
}

/// A string with its leading dashes removed.
pub open spec fn spec_trim_leading_dash(s: Seq<u8>) -> Seq<u8>
    decreases s.len(),
{
    if s.len() > 0 && s[0] == DASH {
        spec_trim_leading_dash(s.drop_first())
    } else {
        s
    }
}

/// A decimal value, or zero when unparsable.
pub open spec fn spec_parse_or_zero(s: Seq<u8>) -> int {
    match dec::spec_parse_usize(s) {
        Some(x) => x as int,
        None => 0,
    }
}

/// The requested span before clamping: `<start>-` takes the tail of the body;
/// `-<suffix>` drops the last `suffix` bytes from the end counted from the
/// front; `<start>-<end>` is inclusive of `end`; unparsable numbers fall back
/// to zero (start) or the body length (end).
pub open spec fn spec_range_raw(v: Seq<u8>, blen: nat) -> (int, int) {
    if v.len() > 0 && v.last() == DASH {
        (spec_parse_or_zero(spec_trim_trailing_dash(v)), blen as int)
    } else if v.len() > 0 && v[0] == DASH {
        let k = match dec::spec_parse_usize(spec_trim_leading_dash(v)) {
            Some(x) => x as int,
            None => blen as int,
        };
        let kk = if k > blen {
            blen as int
        } else {
            k
        };
        (0, blen - kk)
    } else {
        match spec_find(v, seq![DASH], 0) {
            None => (spec_parse_or_zero(v), blen as int),
            Some(d1) => if 0 <= d1 <= v.len() {
                let a = v.subrange(0, d1);
                let rest = v.subrange(d1 + 1, v.len() as int);
                let b = match spec_find(rest, seq![DASH], 0) {
                    None => rest,
                    Some(d2) => if 0 <= d2 <= rest.len() {
                        rest.subrange(0, d2)
                    } else {
                        rest
                    },
                };
                let e = match dec::spec_parse_usize(b) {
                    Some(x) => x + 1,
                    None => blen as int,
                };
                (spec_parse_or_zero(a), e)
            } else {
                (0, blen as int)
            },
        }
    }
}

/// The served span: the raw request with an optional `bytes=` prefix
/// stripped, then out-of-range values replaced by their fallbacks — a start
/// past the body falls back to zero, and an end past the body or before the
/// start falls back to the body length — leaving `0 <= start <= end <= blen`.
pub open spec fn spec_range(rv: Seq<u8>, blen: nat) -> (int, int) {
    let v = if spec_starts_with(rv, bytes_eq_prefix()) {
        rv.subrange(6, rv.len() as int)
    } else {
        rv
    };
    let se = spec_range_raw(v, blen);
    let s = if se.0 > blen {
        0
    } else {
        se.0
    };
    let e = if se.1 > blen || se.1 < s {
        blen as int
    } else {
        se.1
    };
    (s, e)
}

fn trim_trailing_dash(v: &Vec<u8>) -> (r: Vec<u8>)
    ensures
        r@ == spec_trim_trailing_dash(v@),
{
    let mut e = v.len();
    proof {
        assert(v@.subrange(0, e as int) =~= v@);
    }
    while e > 0 && v[e - 1] == DASH
        invariant
            e <= v@.len(),
            spec_trim_trailing_dash(v@) == spec_trim_trailing_dash(v@.subrange(0, e as int)),
        decreases e,
    {
        proof {
            assert(v@.subrange(0, e as int).last() == v@[e - 1]);
            assert(v@.subrange(0, e as int).drop_last() =~= v@.subrange(0, e - 1));
        }
        e = e - 1;
    }
    proof {
        if e > 0 {
            assert(v@.subrange(0, e as int).last() == v@[e - 1]);
        }
    }
    sub_vec(v, 0, e)
}

fn trim_leading_dash(v: &Vec<u8>) -> (r: Vec<u8>)
    ensures
        r@ == spec_trim_leading_dash(v@),
{
    let n = v.len();
    let mut s: usize = 0;
    proof {
        assert(v@.subrange(0, n as int) =~= v@);
    }
    while s < n && v[s] == DASH
        invariant
            s <= n == v@.len(),
            spec_trim_leading_dash(v@) == spec_trim_leading_dash(v@.subrange(s as int, n as int)),
        decreases n - s,
    {
        proof {
            assert(v@.subrange(s as int, n as int)[0] == v@[s as int]);
            assert(v@.subrange(s as int, n as int).drop_first() =~= v@.subrange(
                s + 1,
                n as int,
            ));
        }
        s = s + 1;
    }
    proof {
        if s < n {
            assert(v@.subrange(s as int, n as int)[0] == v@[s as int]);
        } else {
            assert(v@.subrange(s as int, n as int) =~= Seq::<u8>::empty());
        }
    }
    sub_vec(v, s, n)
}

fn parse_or_zero(v: &Vec<u8>) -> (r: usize)
    ensures
        r as int == spec_parse_or_zero(v@),
{
    match dec::parse_usize(v) {
        Some(x) => x,
        None => 0,
    }
}

/// Computes the clamped span for a `Range` header value against a body of
/// `blen` bytes.
fn compute_range(rv: &Vec<u8>, blen: usize) -> (r: (usize, usize))
    ensures
        (r.0 as int, r.1 as int) == spec_range(rv@, blen as nat),
        r.0 <= r.1 <= blen,
{
    let prefix = bytes_eq_prefix_vec();
    let rlen = rv.len();
    let v: Vec<u8> = if starts_with(rv, &prefix) {
        sub_vec(rv, 6, rlen)
    } else {
        copy_vec(rv)
    };
    let vlen = v.len();
    let (s0, e0): (usize, usize) = if vlen > 0 && v[vlen - 1] == DASH {
        proof {
            assert(v@.last() == v@[vlen - 1]);
        }
        let a = trim_trailing_dash(&v);
        (parse_or_zero(&a), blen)
    } else if vlen > 0 && v[0] == DASH {
        let sfx = trim_leading_dash(&v);
        let k: usize = match dec::parse_usize(&sfx) {
            Some(x) => x,
            None => blen,
        };
        let kk: usize = if k > blen {
            blen
        } else {
            k
        };
        (0, blen - kk)
    } else {
        let vdash = dash_vec();
        match find_sub(&v, &vdash, 0) {
            None => (parse_or_zero(&v), blen),
            Some(d1) => {
                proof {
                    lemma_find_props(v@, seq![DASH], 0);
                }
                let a = sub_vec(&v, 0, d1);
                let rest = sub_vec(&v, d1 + 1, vlen);
                let restlen = rest.len();
                let b: Vec<u8> = match find_sub(&rest, &vdash, 0) {
                    None => copy_vec(&rest),
                    Some(d2) => {
                        proof {
                            lemma_find_props(rest@, seq![DASH], 0);
                        }
                        sub_vec(&rest, 0, d2)
                    },
                };
                let e: usize = match dec::parse_usize(&b) {
                    Some(x) => if x >= blen {
                        blen
                    } else {
                        x + 1
                    },
                    None => blen,
                };
                proof {
                    // Clamping the inclusive end early agrees with clamping late.
                    let se = spec_range_raw(v@, blen as nat);
                    assert(se.1 > blen ==> e == blen);
                }
                (parse_or_zero(&a), e)
            },
        }
    };
    let s: usize = if s0 > blen {
        0
    } else {
        s0
    };
    let e: usize = if e0 > blen || e0 < s {
        blen
    } else {
        e0
    };
    (s, e)
}

fn dash_vec() -> (r: Vec<u8>)
    ensures
        r@ == seq![DASH],
{
    let mut v: Vec<u8> = Vec::new();
    v.push(DASH);
    proof {
        assert(v@ =~= seq![DASH]);
    }
    v
}

/// The client's Accept-Encoding value, or empty when the header is absent.
pub open spec fn spec_accept_encoding(req: &Request) -> Seq<u8> {
    match crate::request::spec_header_value(
        views_of(req.headers@),
        "Accept-Encoding".spec_bytes(),
    ) {
        Some(v) => v,
        None => Seq::empty(),
    }
}

/// The request's Range header value, when present.
pub open spec fn spec_range_header(req: &Request) -> Option<Seq<u8>> {
    crate::request::spec_header_value(views_of(req.headers@), "Range".spec_bytes())
}

/// The content-range header line for a served span: the last byte shown is
/// `end - 1` (for the one empty span a range request can produce, the span
/// at the body's end, that is one before the span start).
pub open spec fn spec_content_range_line(s: int, e: int, total: nat) -> Seq<u8> {
    "Content-Range: bytes ".spec_bytes() + dec::spec_dec(s as nat) + "-".spec_bytes()
        + dec::spec_dec_int(e - 1) + "/".spec_bytes() + dec::spec_dec(total)
}

/// The header lines of an asset response, in emission order: Accept-Ranges,
/// then the content range when a range was served, then the content encoding
/// when a variant was chosen.
pub open spec fn spec_asset_headers(
    enc: Seq<u8>,
    range: Option<(int, int)>,
    total: nat,
) -> Seq<Seq<u8>> {
    let base = seq!["Accept-Ranges: bytes".spec_bytes()];
    let with_range = match range {
        None => base,
        Some((s, e)) => base.push(spec_content_range_line(s, e, total)),
    };
    if enc.len() == 0 {
        with_range
    } else {
        with_range.push("Content-Encoding: ".spec_bytes() + enc)
    }
}

/// What resolving a request against an asset guarantees: protocol version,
/// content type, and the negotiated (and possibly range-restricted) body with
/// its headers.
pub open spec fn asset_response_ok(asset: ServeRequest, req: &Request, r: Response) -> bool {
    &&& r.wf()
    &&& r.version_major == 1 && r.version_minor == 1
    &&& r.content_type@ == asset.content_type@
    &&& r.content_length_override is None
    &&& ({
        let chosen = spec_negotiate(&asset, spec_accept_encoding(req));
        match spec_range_header(req) {
            None => r.status == 200 && r.body.bytes() == chosen.0 && views_of(r.headers@)
                == spec_asset_headers(chosen.1, None, chosen.0.len()),
            Some(rv) => {
                let se = spec_range(rv, chosen.0.len());
                r.status == 206 && r.body.bytes() == chosen.0.subrange(se.0, se.1) && views_of(
                    r.headers@,
                ) == spec_asset_headers(chosen.1, Some(se), chosen.0.len())
            },
        }
    })
}

/// What the headers-only (`HEAD`) resolution guarantees: the same resolution,
/// an empty body, and the resolved body length as the explicit content
/// length.
pub open spec fn asset_head_response_ok(asset: ServeRequest, req: &Request, r: Response) -> bool {
    &&& r.wf()
    &&& r.version_major == 1 && r.version_minor == 1
    &&& r.content_type@ == asset.content_type@
    &&& r.body is Empty
    &&& ({
        let chosen = spec_negotiate(&asset, spec_accept_encoding(req));
        match spec_range_header(req) {
            None => r.status == 200 && r.content_length_override == Some(
                chosen.0.len() as usize,
            ) && views_of(r.headers@) == spec_asset_headers(chosen.1, None, chosen.0.len()),
            Some(rv) => {
                let se = spec_range(rv, chosen.0.len());
                r.status == 206 && r.content_length_override == Some((se.1 - se.0) as usize)
                    && views_of(r.headers@) == spec_asset_headers(
                    chosen.1,
                    Some(se),
                    chosen.0.len(),
                )
            },
        }
    })
}

impl ServeRequest {
    /// Resolves a request against this asset: negotiates the encoding, then
    /// honors a single byte range. With no Accept-Encoding header the served
    /// body is byte-identical to the asset's raw body (and to the negotiated
    /// body otherwise); a range request is answered with 206 over the
    /// requested span, out-of-range values replaced by their fallbacks (zero
    /// for the start, the body length for the end).
    pub fn create_response(&self, request: &Request) -> (r: Response)
        ensures
            asset_response_ok(*self, request, r),
            crate::request::spec_header_value(
                views_of(request.headers@),
                "Accept-Encoding".spec_bytes(),
            ) is None && spec_range_header(request) is None ==> r.status == 200 && r.body.bytes()
                == self.body@,
    {
        let ae_name = "Accept-Encoding".as_bytes_vec();
        let ae: Vec<u8> = match request.get_header(&ae_name) {
            Some(v) => v,
            None => Vec::new(),
        };
        proof {
            assert(ae@ == spec_accept_encoding(request));
        }
        let mut chosen_body: Vec<u8> = copy_vec(&self.body);
        let mut enc: Vec<u8> = Vec::new();
        let gz = enc_gzip_vec();
        match &self.body_gzip {
            Some(g) => {
                if contains_sub(&ae, &gz) && g.len() < chosen_body.len() {
                    chosen_body = copy_vec(g);
                    enc = gz;
                }
            },
            None => {},
        }
        let df = enc_deflate_vec();
        match &self.body_deflate {
            Some(g) => {
                if contains_sub(&ae, &df) && g.len() < chosen_body.len() {
                    chosen_body = copy_vec(g);
                    enc = df;
                }
            },
            None => {},
        }
        let br = enc_br_vec();
        match &self.body_br {
            Some(g) => {
                if contains_sub(&ae, &br) && g.len() < chosen_body.len() {
                    chosen_body = copy_vec(g);
                    enc = br;
                }
            },
            None => {},
        }
        let zs = enc_zstd_vec();
        match &self.body_zstd {
            Some(g) => {
                if contains_sub(&ae, &zs) && g.len() < chosen_body.len() {
                    chosen_body = copy_vec(g);
                    enc = zs;
                }
            },
            None => {},
        }
        let ghost chosen = spec_negotiate(self, spec_accept_encoding(request));
        proof {
            assert(chosen_body@ == chosen.0);
            assert(enc@ == chosen.1);
        }
        let mut response = Response::new();
        response.content_type = copy_vec(&self.content_type);
        let mut headers: Vec<Vec<u8>> = Vec::new();
        headers.push("Accept-Ranges: bytes".as_bytes_vec());
        let range_name = "Range".as_bytes_vec();
        let body_len = chosen_body.len();
        match request.get_header(&range_name) {
            None => {
                response.body = ResponseBody::Full(chosen_body);
            },
            Some(rv) => {
                let se = compute_range(&rv, body_len);
                response.status = 206;
                let mut line: Vec<u8> = "Content-Range: bytes ".as_bytes_vec();
                let d = dec::format_usize(se.0);
                crate::response::append_bytes(&mut line, &d);
                let dash = "-".as_bytes_vec();
                crate::response::append_bytes(&mut line, &dash);
                if se.1 >= 1 {
                    let d = dec::format_usize(se.1 - 1);
                    crate::response::append_bytes(&mut line, &d);
                } else {
                    let mut d: Vec<u8> = Vec::new();
                    d.push(dec::MINUS);
                    d.push(dec::ZERO_DIGIT + 1);
                    proof {
                        assert(d@ =~= dec::spec_dec_int(-1));
                    }
                    crate::response::append_bytes(&mut line, &d);
                }
                let slash = "/".as_bytes_vec();
                crate::response::append_bytes(&mut line, &slash);
                let d = dec::format_usize(body_len);
                crate::response::append_bytes(&mut line, &d);
                proof {
                    let ghost spec_se = spec_range(rv@, chosen.0.len());
                    assert(line@ =~= spec_content_range_line(
                        spec_se.0,
                        spec_se.1,
                        chosen.0.len(),
                    ));
                }
                headers.push(line);
                response.body = ResponseBody::Slice(
                    SliceBody { data: chosen_body, start: se.0, end: se.1 },
                );
            },
        }
        if enc.len() > 0 {
            let mut line: Vec<u8> = "Content-Encoding: ".as_bytes_vec();
            crate::response::append_bytes(&mut line, &enc);
            headers.push(line);
        }
        response.headers = headers;
        proof {
            let rngh = spec_range_header(request);
            match rngh {
                None => {
                    assert(views_of(response.headers@) =~= spec_asset_headers(
                        chosen.1,
                        None,
                        chosen.0.len(),
                    ));
                },
                Some(rv) => {
                    let se = spec_range(rv, chosen.0.len());
                    assert(views_of(response.headers@) =~= spec_asset_headers(
                        chosen.1,
                        Some(se),
                        chosen.0.len(),
                    ));
                },
            }
            if crate::request::spec_header_value(views_of(request.headers@), "Accept-Encoding".spec_bytes())
                is None && rngh is None {
                law_raw_body_without_encoding(self);
            }
        }
        response
    }

    /// The headers-only variant of the resolution, for `HEAD`: the same
    /// resolution, an empty body, and the resolved body length announced as
    /// the explicit content length.
    pub fn create_head_response(&self, request: &Request) -> (r: Response)
        ensures
            asset_head_response_ok(*self, request, r),
    {
        let mut response = self.create_response(request);
        let len = response.body.len();
        response.content_length_override = Some(len);
        response.body = ResponseBody::Empty;
        response
    }
}

} // verus!
