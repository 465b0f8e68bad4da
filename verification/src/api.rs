//! The JSON API: rating reads and writes and visit counting, each a pure
//! function of the store and the request (plus the clock handed in by the
//! host).
use vstd::prelude::*;
use vstd::string::*;

use crate::bytes::{eq_vec, views_of};
use crate::content_types;
use crate::json;
use crate::request::{spec_header_value, Request};
use crate::response::{Response, ResponseBody};
use crate::store::{rating_total, spec_add_rating, spec_add_visit, Database, StoreModel, StoredIp};

verus! {

pub open spec fn req_method(req: &Request) -> Seq<u8> {
    req.method@
}

pub open spec fn req_path(req: &Request) -> Seq<u8> {
    req.path@
}

/// The response to a read of the global click counter.
pub struct ClicksResponse {
    pub clicks: u64,
}

/// The response to a read of the distinct-visit counter.
pub struct VisitsResponse {
    pub visits: u64,
}

/// The response to a read of the whole ratings map.
pub struct ReviewRatingsResponse {
    pub review_ratings: Vec<(u8, i64)>,
}

/// The response to a rating write: the id and its updated accumulator.
pub struct ReviewRatingResponse {
    pub id: u8,
    pub rating: i64,
}

/// A rating submission: which id, and whether the vote is positive.
pub struct PostReviewRatingRequest {
    pub id: u8,
    pub positive: bool,
}

/// The address a visit is recorded under: the `X-Forwarded-For` header when
/// present and parsable as a textual IPv4 or IPv6 address, else the
/// connection's peer address.
pub open spec fn spec_visit_ip(req: &Request, peer: StoredIp) -> StoredIp {
    match spec_header_value(views_of(req.headers@), "X-Forwarded-For".spec_bytes()) {
        Some(v) => match crate::ip::spec_parse_ipv4(v) {
            Some(x) => StoredIp::V4(x),
            None => match crate::ip::spec_parse_ipv6(v) {
                Some(x) => StoredIp::V6(x),
                None => peer,
            },
        },
        None => peer,
    }
}

/// What an API response guarantees besides its body: a fresh JSON 200 (or
/// 400) response with no extra headers.
pub open spec fn api_response_shape(r: Response, status: u16) -> bool {
    &&& r.wf()
    &&& r.version_major == 1 && r.version_minor == 1
    &&& r.status == status
    &&& r.content_type@ == content_types::spec_json()
    &&& views_of(r.headers@) == Seq::<Seq<u8>>::empty()
    &&& r.content_length_override is None
}

/// Routes `/api/*` requests. `None` means no API endpoint matched and the
/// caller falls through to the asset scan. A ratings read leaves the store
/// untouched and its body is a function of the store alone, so repeating it
/// with no intervening mutation returns identical bytes.
#[verifier::rlimit(100)]
pub fn route(request: &Request, db: &mut Database, peer: StoredIp, now: u64) -> (r: Option<
    Response,
>)
    requires
        old(db).wf(),
    ensures
        final(db).wf(),
        ({
            let m = req_method(request);
            let p = req_path(request);
            if m == "GET".spec_bytes() && p == "/api/review_ratings".spec_bytes() {
                match r {
                    Some(resp) => api_response_shape(resp, 200) && resp.body.bytes()
                        == json::spec_ratings_json(old(db)@.ratings) && final(db)@ == old(db)@,
                    None => false,
                }
            } else if m == "POST".spec_bytes() && p == "/api/review_ratings".spec_bytes() {
                match r {
                    Some(resp) => match json::spec_parse_rating_body(request.body@) {
                        Some((id, positive)) => {
                            let delta: i64 = if positive {
                                1i64
                            } else {
                                -1i64
                            };
                            &&& final(db)@ == spec_add_rating(old(db)@, id, delta, now)
                            &&& api_response_shape(resp, 200)
                            &&& resp.body.bytes() == json::spec_rating_json(
                                id,
                                rating_total(final(db)@, id),
                            )
                        },
                        None => final(db)@ == old(db)@ && api_response_shape(resp, 400)
                            && resp.body.bytes() == json::spec_invalid_body_json(),
                    },
                    None => false,
                }
            } else if m == "GET".spec_bytes() && p == "/api/visits".spec_bytes() {
                match r {
                    Some(resp) => final(db)@ == spec_add_visit(
                        old(db)@,
                        spec_visit_ip(request, peer),
                        now,
                    ) && api_response_shape(resp, 200) && resp.body.bytes()
                        == json::spec_visits_json(final(db)@.visits),
                    None => false,
                }
            } else {
                r is None && final(db)@ == old(db)@
            }
        }),
{
    let get = "GET".as_bytes_vec();
    let post = "POST".as_bytes_vec();
    let ratings_path = "/api/review_ratings".as_bytes_vec();
    let visits_path = "/api/visits".as_bytes_vec();
    if eq_vec(&request.method, &get) && eq_vec(&request.path, &ratings_path) {
        let out = ReviewRatingsResponse { review_ratings: db.get_review_ratings() };
        let body = json::ratings_json(&out.review_ratings);
        let mut response = Response::new();
        response.content_type = content_types::json();
        response.body = ResponseBody::Owned(body);
        proof {
            assert(views_of(response.headers@) =~= Seq::<Seq<u8>>::empty());
        }
        return Some(response);
    }
    if eq_vec(&request.method, &post) && eq_vec(&request.path, &ratings_path) {
        match json::parse_rating_body(&request.body) {
            Some((id, positive)) => {
                let delta: i64 = if positive {
                    1
                } else {
                    -1
                };
                db.add_review_rating(id, delta, now);
                let rating = db.get_review_rating(id);
                let body = json::rating_json(id, rating);
                let mut response = Response::new();
                response.content_type = content_types::json();
                response.body = ResponseBody::Owned(body);
                proof {
                    assert(views_of(response.headers@) =~= Seq::<Seq<u8>>::empty());
                }
                return Some(response);
            },
            None => {
                let mut response = Response::new();
                response.status = 400;
                response.content_type = content_types::json();
                response.body = ResponseBody::Owned(json::invalid_body_json());
                proof {
                    assert(views_of(response.headers@) =~= Seq::<Seq<u8>>::empty());
                }
                return Some(response);
            },
        }
    }
    if eq_vec(&request.method, &get) && eq_vec(&request.path, &visits_path) {
        let fwd_name = "X-Forwarded-For".as_bytes_vec();
        let ip: StoredIp = match request.get_header(&fwd_name) {
            Some(v) => match crate::ip::parse_ipv4(&v) {
                Some(x) => StoredIp::V4(x),
                None => match crate::ip::parse_ipv6(&v) {
                    Some(x) => StoredIp::V6(x),
                    None => peer,
                },
            },
            None => peer,
        };
        db.add_visit(ip, now);
        let out = VisitsResponse { visits: db.get_visits() };
        let body = json::visits_json(out.visits);
        let mut response = Response::new();
        response.content_type = content_types::json();
        response.body = ResponseBody::Owned(body);
        proof {
            assert(views_of(response.headers@) =~= Seq::<Seq<u8>>::empty());
        }
        return Some(response);
    }
    None
}

/// The request names one of the API endpoints.
pub open spec fn api_handles(req: &Request) -> bool {
    let m = req_method(req);
    let p = req_path(req);
    ||| (m == "GET".spec_bytes() && p == "/api/review_ratings".spec_bytes())
    ||| (m == "POST".spec_bytes() && p == "/api/review_ratings".spec_bytes())
    ||| (m == "GET".spec_bytes() && p == "/api/visits".spec_bytes())
}

/// What the API guarantees of a handled request (the cases of the API `route`).
pub open spec fn api_outcome_ok(
    req: &Request,
    before: StoreModel,
    after: StoreModel,
    peer: StoredIp,
    now: u64,
    r: Response,
) -> bool {
    let m = req_method(req);
    let p = req_path(req);
    if m == "GET".spec_bytes() && p == "/api/review_ratings".spec_bytes() {
        api_response_shape(r, 200) && r.body.bytes() == json::spec_ratings_json(before.ratings)
            && after == before
    } else if m == "POST".spec_bytes() && p == "/api/review_ratings".spec_bytes() {
        match json::spec_parse_rating_body(req.body@) {
            Some((id, positive)) => {
                let delta: i64 = if positive {
                    1i64
                } else {
                    -1i64
                };
                &&& after == spec_add_rating(before, id, delta, now)
                &&& api_response_shape(r, 200)
                &&& r.body.bytes() == json::spec_rating_json(id, rating_total(after, id))
            },
            None => after == before && api_response_shape(r, 400) && r.body.bytes()
                == json::spec_invalid_body_json(),
        }
    } else if m == "GET".spec_bytes() && p == "/api/visits".spec_bytes() {
        after == spec_add_visit(before, spec_visit_ip(req, peer), now) && api_response_shape(
            r,
            200,
        ) && r.body.bytes() == json::spec_visits_json(after.visits)
    } else {
        false
    }
}

/// Repeating the ratings read with no intervening mutation returns identical
/// bytes: the read leaves the store unchanged, and its body is a function of
/// the stored ratings alone.
pub proof fn law_ratings_read_idempotent(
    before_first: StoreModel,
    after_first: StoreModel,
    body1: Seq<u8>,
    body2: Seq<u8>,
)
    requires
        after_first == before_first,
        body1 == json::spec_ratings_json(before_first.ratings),
        body2 == json::spec_ratings_json(after_first.ratings),
    ensures
        body1 == body2,
{
}

/// Submitting a positive rating for an id and then reading it yields the
/// previous value plus one; a negative one yields the previous value minus
/// one. (At an accumulator already at the very top or bottom of its range the
/// value saturates instead.)
pub proof fn law_rating_post_then_read(m: StoreModel, id: u8, now: u64)
    requires
        m.wf(),
    ensures
        rating_total(m, id) < i64::MAX ==> rating_total(spec_add_rating(m, id, 1, now), id)
            == rating_total(m, id) + 1,
        rating_total(m, id) > i64::MIN ==> rating_total(spec_add_rating(m, id, -1i64, now), id)
            == rating_total(m, id) - 1,
{
    crate::store::lemma_add_rating_wf(m, id, 1, now);
    crate::store::lemma_add_rating_wf(m, id, -1i64, now);
}

} // verus!
