//! Request routing: the root document, the JSON API, the static asset scan
//! with a `HEAD` fallback, and the fixed 404 page.
use vstd::prelude::*;
use vstd::string::*;

use crate::assets::{asset_head_response_ok, asset_response_ok, ServeRequest};
use crate::bytes::{eq_vec, spec_starts_with, starts_with, views_of};
use crate::content_types;
use crate::request::Request;
use crate::response::{Response, ResponseBody};
use crate::store::{Database, StoredIp};

verus! {

/// The first asset the scan serves for a path and method: the index of the
/// match, and whether it is a `HEAD` fallback against a mismatched method.
pub open spec fn spec_scan(assets: Seq<ServeRequest>, i: int, method: Seq<u8>, path: Seq<u8>) -> Option<
    (int, bool),
>
    decreases assets.len() - i,
{
    if 0 <= i < assets.len() {
        if assets[i].path@ == path {
            if assets[i].method@ == method {
                Some((i, false))
            } else if method == "HEAD".spec_bytes() {
                Some((i, true))
            } else {
                spec_scan(assets, i + 1, method, path)
            }
        } else {
            spec_scan(assets, i + 1, method, path)
        }
    } else {
        None
    }
}

/// The fixed 404 page.
pub open spec fn spec_not_found_body() -> Seq<u8> {
    "<html><body><h1>404 Not Found</h1></body></html>".spec_bytes()
}

/// Resolves a request to a response. Exact `GET /` serves the designated root
/// document (the first asset); `/api/` paths go to the API router; any other
/// path is scanned against the asset table, with a headers-only fallback for
/// `HEAD`; everything else is the fixed 404 page. A method mismatch without a
/// `HEAD` fallback is a 404, not a 405.
pub fn route(request: &Request, assets: &Vec<ServeRequest>, db: &mut Database, peer: StoredIp,
    now: u64) -> (r: Response)
    requires
        old(db).wf(),
    ensures
        final(db).wf(),
        r.wf(),
        ({
            let m = crate::api::req_method(request);
            let p = crate::api::req_path(request);
            if m == "GET".spec_bytes() && p == "/".spec_bytes() && assets@.len() > 0 {
                asset_response_ok(assets@[0], request, r) && final(db)@ == old(db)@
            } else if spec_starts_with(p, "/api/".spec_bytes()) && crate::api::api_handles(request) {
                crate::api::api_outcome_ok(request, old(db)@, final(db)@, peer, now, r)
            } else {
                final(db)@ == old(db)@ && (match spec_scan(assets@, 0, m, p) {
                    Some((i, false)) => asset_response_ok(assets@[i], request, r),
                    Some((i, true)) => asset_head_response_ok(assets@[i], request, r),
                    None => not_found_ok(r),
                })
            }
        }),
{
    let get = "GET".as_bytes_vec();
    let root = "/".as_bytes_vec();
    if eq_vec(&request.method, &get) && eq_vec(&request.path, &root) && assets.len() > 0 {
        return assets[0].create_response(request);
    }
    let api_prefix = "/api/".as_bytes_vec();
    if starts_with(&request.path, &api_prefix) {
        match crate::api::route(request, db, peer, now) {
            Some(resp) => {
                return resp;
            },
            None => {},
        }
    }
    let head = "HEAD".as_bytes_vec();
    let mut i: usize = 0;
    while i < assets.len()
        invariant
            i <= assets@.len(),
            get@ == "GET".spec_bytes(),
            head@ == "HEAD".spec_bytes(),
            db.wf(),
            db@ == old(db)@,
            !(crate::api::req_method(request) == "GET".spec_bytes() && crate::api::req_path(request) == "/".spec_bytes()
                && assets@.len() > 0),
            spec_starts_with(crate::api::req_path(request), "/api/".spec_bytes()) ==> !crate::api::api_handles(request),
            spec_scan(assets@, 0, request.method@, request.path@) == spec_scan(
                assets@,
                i as int,
                request.method@,
                request.path@,
            ),
        decreases assets@.len() - i,
    {
        let asset = &assets[i];
        if eq_vec(&asset.path, &request.path) {
            if eq_vec(&asset.method, &request.method) {
                return assets[i].create_response(request);
            }
            if eq_vec(&request.method, &head) {
                return assets[i].create_head_response(request);
            }
        }
        i = i + 1;
    }
    let mut response = Response::new();
    response.status = 404;
    response.content_type = content_types::html();
    response.body = ResponseBody::Owned(
        "<html><body><h1>404 Not Found</h1></body></html>".as_bytes_vec(),
    );
    proof {
        assert(views_of(response.headers@) =~= Seq::<Seq<u8>>::empty());
    }
    response
}

/// The fixed 404 response.
pub open spec fn not_found_ok(r: Response) -> bool {
    &&& r.wf()
    &&& r.status == 404
    &&& r.content_type@ == content_types::spec_html()
    &&& r.body.bytes() == spec_not_found_body()
    &&& views_of(r.headers@) == Seq::<Seq<u8>>::empty()
    &&& r.content_length_override is None
}

} // verus!
