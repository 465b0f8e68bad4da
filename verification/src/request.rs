//! HTTP/1.1 request parsing from raw bytes: request line, then header lines
//! up to a blank line, then the body — an explicit state of the buffer rather
//! than whole-buffer text splitting. A buffer without a complete head (no
//! blank line), with a head that is not decodable as text (valid UTF-8),
//! without a three-token request line, or with a malformed version yields no
//! request. The body after the blank line is raw bytes and is not decoded.
use vstd::prelude::*;

use crate::bytes::{
    eq_vec, find_sub, lemma_find_props, matches_at, spec_find, spec_split, spec_starts_with,
    split_sub, starts_with, sub_vec, views_of,
};
use crate::dec;

verus! {

pub const CR: u8 = 13;

pub const LF: u8 = 10;

pub const SP: u8 = 32;

pub const COLON: u8 = 58;

pub const DOT: u8 = 46;

pub open spec fn crlf() -> Seq<u8> {
    seq![CR, LF]
}

pub open spec fn crlf2() -> Seq<u8> {
    seq![CR, LF, CR, LF]
}

pub open spec fn sp_seq() -> Seq<u8> {
    seq![SP]
}

pub open spec fn colon_sp() -> Seq<u8> {
    seq![COLON, SP]
}

pub open spec fn http_slash() -> Seq<u8> {
    seq!['H' as u8, 'T' as u8, 'T' as u8, 'P' as u8, '/' as u8]
}

fn crlf_vec() -> (r: Vec<u8>)
    ensures
        r@ == crlf(),
{
    let mut v: Vec<u8> = Vec::new();
    v.push(CR);
    v.push(LF);
    proof {
        assert(v@ =~= crlf());
    }
    v
}

fn crlf2_vec() -> (r: Vec<u8>)
    ensures
        r@ == crlf2(),
{
    let mut v: Vec<u8> = Vec::new();
    v.push(CR);
    v.push(LF);
    v.push(CR);
    v.push(LF);
    proof {
        assert(v@ =~= crlf2());
    }
    v
}

fn sp_vec() -> (r: Vec<u8>)
    ensures
        r@ == sp_seq(),
{
    let mut v: Vec<u8> = Vec::new();
    v.push(SP);
    proof {
        assert(v@ =~= sp_seq());
    }
    v
}

fn colon_sp_vec() -> (r: Vec<u8>)
    ensures
        r@ == colon_sp(),
{
    let mut v: Vec<u8> = Vec::new();
    v.push(COLON);
    v.push(SP);
    proof {
        assert(v@ =~= colon_sp());
    }
    v
}

fn http_slash_vec() -> (r: Vec<u8>)
    ensures
        r@ == http_slash(),
{
    let mut v: Vec<u8> = Vec::new();
    v.push('H' as u8);
    v.push('T' as u8);
    v.push('T' as u8);
    v.push('P' as u8);
    v.push('/' as u8);
    proof {
        assert(v@ =~= http_slash());
    }
    v
}

fn dot_vec() -> (r: Vec<u8>)
    ensures
        r@ == seq![DOT],
{
    let mut v: Vec<u8> = Vec::new();
    v.push(DOT);
    proof {
        assert(v@ =~= seq![DOT]);
    }
    v
}

/// The parts of a parsed request, at the level of byte sequences.
pub struct ReqParts {
    pub method: Seq<u8>,
    pub path: Seq<u8>,
    pub version_major: u8,
    pub version_minor: u8,
    pub headers: Seq<Seq<u8>>,
    pub body: Seq<u8>,
}

/// Parses `HTTP/<major>.<minor>`, each part one or more digits whose value
/// fits in a byte.
pub open spec fn spec_parse_version(v: Seq<u8>) -> Option<(u8, u8)> {
    if spec_starts_with(v, http_slash()) {
        let rest = v.subrange(5, v.len() as int);
        match spec_find(rest, seq![DOT], 0) {
            None => None,
            Some(dot) => if 0 <= dot && dot + 1 <= rest.len() {
                match (dec::spec_parse_u64(rest.subrange(0, dot)), dec::spec_parse_u64(
                    rest.subrange(dot + 1, rest.len() as int),
                )) {
                    (Some(mj), Some(mn)) => if mj <= 255 && mn <= 255 {
                        Some((mj as u8, mn as u8))
                    } else {
                        None
                    },
                    _ => None,
                }
            } else {
                None
            },
        }
    } else {
        None
    }
}

/// Parses `<method> SP <path> SP <version>` (anything after a third space is
/// ignored, as a trailing token).
pub open spec fn spec_parse_request_line(line: Seq<u8>) -> Option<(Seq<u8>, Seq<u8>, u8, u8)> {
    match spec_find(line, sp_seq(), 0) {
        None => None,
        Some(sp1) => match spec_find(line, sp_seq(), sp1 + 1) {
            None => None,
            Some(sp2) => {
                let ver_end = match spec_find(line, sp_seq(), sp2 + 1) {
                    Some(v) => v,
                    None => line.len() as int,
                };
                if 0 <= sp1 && sp1 + 1 <= sp2 && sp2 + 1 <= ver_end <= line.len() {
                    match spec_parse_version(line.subrange(sp2 + 1, ver_end)) {
                        None => None,
                        Some((mj, mn)) => Some(
                            (line.subrange(0, sp1), line.subrange(sp1 + 1, sp2), mj, mn),
                        ),
                    }
                } else {
                    None
                }
            },
        },
    }
}

/// Parses a whole request buffer: the head must be complete (terminated by a
/// blank line) and decodable as text (valid UTF-8); the bytes after the blank
/// line are the body, uninterpreted raw bytes.
pub open spec fn spec_parse_request(data: Seq<u8>) -> Option<ReqParts> {
    match spec_find(data, crlf2(), 0) {
        None => None,
        Some(he) => match spec_find(data, crlf(), 0) {
            None => None,
            Some(le) => if 0 <= le <= he && he + 4 <= data.len() && (le == he || le + 2 <= he)
                && vstd::utf8::valid_utf8(data.subrange(0, he + 4)) {
                match spec_parse_request_line(data.subrange(0, le)) {
                    None => None,
                    Some((method, path, mj, mn)) => Some(
                        ReqParts {
                            method,
                            path,
                            version_major: mj,
                            version_minor: mn,
                            headers: if le == he {
                                Seq::empty()
                            } else {
                                spec_split(data.subrange(le + 2, he), crlf())
                            },
                            body: data.subrange(he + 4, data.len() as int),
                        },
                    ),
                }
            } else {
                None
            },
        },
    }
}

/// A parsed request.
pub struct Request {
    pub method: Vec<u8>,
    pub path: Vec<u8>,
    pub version_major: u8,
    pub version_minor: u8,
    pub headers: Vec<Vec<u8>>,
    pub body: Vec<u8>,
}

/// The parts a `Request` stands for.
pub open spec fn req_parts(req: &Request) -> ReqParts {
    ReqParts {
        method: req.method@,
        path: req.path@,
        version_major: req.version_major,
        version_minor: req.version_minor,
        headers: views_of(req.headers@),
        body: req.body@,
    }
}

/// A header line carries `name` exactly when its first `": "` closes `name`.
pub open spec fn spec_header_matches(l: Seq<u8>, name: Seq<u8>) -> bool {
    match spec_find(l, colon_sp(), 0) {
        Some(p) => l.subrange(0, p) == name,
        None => false,
    }
}

/// The value of the first header line carrying `name`.
pub open spec fn spec_header_value(hs: Seq<Seq<u8>>, name: Seq<u8>) -> Option<Seq<u8>>
    decreases hs.len(),
{
    if hs.len() == 0 {
        None
    } else if spec_header_matches(hs[0], name) {
        match spec_find(hs[0], colon_sp(), 0) {
            Some(p) => if 0 <= p && p + 2 <= hs[0].len() {
                Some(hs[0].subrange(p + 2, hs[0].len() as int))
            } else {
                None
            },
            None => None,
        }
    } else {
        spec_header_value(hs.drop_first(), name)
    }
}

impl Request {
    /// Parses the bytes read from a connection into a request.
    pub fn parse(data: &Vec<u8>) -> (r: Option<Request>)
        ensures
            match r {
                Some(req) => spec_parse_request(data@) == Some(req_parts(&req)),
                None => spec_parse_request(data@) is None,
            },
    {
        let dlen = data.len();
        let vcrlf2 = crlf2_vec();
        let vcrlf = crlf_vec();
        let he: usize = match find_sub(data, &vcrlf2, 0) {
            Some(h) => h,
            None => {
                return None;
            },
        };
        proof {
            lemma_find_props(data@, crlf2(), 0);
            // A blank line is in particular a line end, so the first CRLF exists.
            assert(matches_at(data@, crlf(), he as int)) by {
                assert(data@.subrange(he as int, he + 4) == crlf2());
                assert(data@.subrange(he as int, he + 2) =~= crlf());
            }
            lemma_find_props(data@, crlf(), 0);
        }
        let le: usize = match find_sub(data, &vcrlf, 0) {
            Some(l) => l,
            None => {
                proof {
                    assert(false);
                }
                return None;
            },
        };
        proof {
            lemma_find_props(data@, crlf(), 0);
            assert(le <= he);
            if le != he && le + 2 > he {
                // The blank line cannot start inside the first CRLF.
                assert(le + 1 == he);
                assert(data@.subrange(le as int, le + 2)[1] == LF);
                assert(data@.subrange(he as int, he + 4)[0] == CR);
                assert(false);
            }
        }
        let head = sub_vec(data, 0, he + 4);
        if !crate::bytes::utf8_valid(&head) {
            return None;
        }
        let line = sub_vec(data, 0, le);
        let parsed = parse_request_line(&line);
        match parsed {
            None => {
                return None;
            },
            Some((method, path, mj, mn)) => {
                let headers: Vec<Vec<u8>> = if le == he {
                    Vec::new()
                } else {
                    let region = sub_vec(data, le + 2, he);
                    split_sub(&region, &vcrlf)
                };
                proof {
                    if le == he {
                        assert(views_of(Seq::<Vec<u8>>::empty()) =~= Seq::<Seq<u8>>::empty());
                    }
                }
                let body = sub_vec(data, he + 4, dlen);
                let req = Request {
                    method,
                    path,
                    version_major: mj,
                    version_minor: mn,
                    headers,
                    body,
                };
                proof {
                    assert(views_of(Seq::<Vec<u8>>::empty()) =~= Seq::<Seq<u8>>::empty());
                }
                Some(req)
            },
        }
    }

    /// The value of the first header line whose name matches `name` exactly.
    pub fn get_header(&self, name: &Vec<u8>) -> (r: Option<Vec<u8>>)
        ensures
            match r {
                Some(v) => spec_header_value(views_of(self.headers@), name@) == Some(v@),
                None => spec_header_value(views_of(self.headers@), name@) is None,
            },
    {
        let vcolon = colon_sp_vec();
        let ghost hs = views_of(self.headers@);
        proof {
            assert(hs.subrange(0, hs.len() as int) =~= hs);
        }
        let mut i: usize = 0;
        while i < self.headers.len()
            invariant
                i <= self.headers@.len(),
                vcolon@ == colon_sp(),
                hs == views_of(self.headers@),
                hs.len() == self.headers@.len(),
                spec_header_value(hs, name@) == spec_header_value(
                    hs.subrange(i as int, hs.len() as int),
                    name@,
                ),
            decreases self.headers@.len() - i,
        {
            let line = &self.headers[i];
            let ghost tail = hs.subrange(i as int, hs.len() as int);
            proof {
                assert(tail[0] == hs[i as int]);
                assert(hs[i as int] == line@);
                assert(tail.drop_first() =~= hs.subrange(i + 1, hs.len() as int));
            }
            let llen = line.len();
            match find_sub(line, &vcolon, 0) {
                Some(p) => {
                    proof {
                        lemma_find_props(line@, colon_sp(), 0);
                    }
                    let front = sub_vec(line, 0, p);
                    if eq_vec(&front, name) {
                        let value = sub_vec(line, p + 2, llen);
                        return Some(value);
                    }
                },
                None => {},
            }
            i = i + 1;
        }
        proof {
            assert(hs.subrange(hs.len() as int, hs.len() as int) =~= Seq::<Seq<u8>>::empty());
        }
        None
    }
}

/// Parses the request line into method, path and version.
fn parse_request_line(line: &Vec<u8>) -> (r: Option<(Vec<u8>, Vec<u8>, u8, u8)>)
    ensures
        match r {
            Some((m, p, mj, mn)) => spec_parse_request_line(line@) == Some((m@, p@, mj, mn)),
            None => spec_parse_request_line(line@) is None,
        },
{
    let llen = line.len();
    let vsp = sp_vec();
    let sp1: usize = match find_sub(line, &vsp, 0) {
        Some(s) => s,
        None => {
            return None;
        },
    };
    proof {
        lemma_find_props(line@, sp_seq(), 0);
    }
    let sp2: usize = match find_sub(line, &vsp, sp1 + 1) {
        Some(s) => s,
        None => {
            return None;
        },
    };
    proof {
        lemma_find_props(line@, sp_seq(), (sp1 + 1) as int);
    }
    let ver_end: usize = match find_sub(line, &vsp, sp2 + 1) {
        Some(v) => v,
        None => llen,
    };
    proof {
        lemma_find_props(line@, sp_seq(), (sp2 + 1) as int);
    }
    let vtok = sub_vec(line, sp2 + 1, ver_end);
    match parse_version(&vtok) {
        None => None,
        Some((mj, mn)) => {
            let method = sub_vec(line, 0, sp1);
            let path = sub_vec(line, sp1 + 1, sp2);
            Some((method, path, mj, mn))
        },
    }
}

/// Parses the version token.
fn parse_version(v: &Vec<u8>) -> (r: Option<(u8, u8)>)
    ensures
        r == spec_parse_version(v@),
{
    let vhttp = http_slash_vec();
    if !starts_with(v, &vhttp) {
        return None;
    }
    let rest = sub_vec(v, 5, v.len());
    let vdot = dot_vec();
    let dot: usize = match find_sub(&rest, &vdot, 0) {
        Some(d) => d,
        None => {
            return None;
        },
    };
    proof {
        lemma_find_props(rest@, seq![DOT], 0);
    }
    let majs = sub_vec(&rest, 0, dot);
    let mins = sub_vec(&rest, dot + 1, rest.len());
    let mj: u64 = match dec::parse_u64(&majs) {
        Some(m) => m,
        None => {
            return None;
        },
    };
    let mn: u64 = match dec::parse_u64(&mins) {
        Some(m) => m,
        None => {
            return None;
        },
    };
    if mj > 255 || mn > 255 {
        return None;
    }
    Some((mj as u8, mn as u8))
}

} // verus!
