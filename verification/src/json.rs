//! The JSON the API speaks: emitters for the `{"data": ...}` envelopes and
//! the `{"message": ...}` error envelope, and a parser for the rating
//! submission body. The accepted body dialect is pinned deliberately: an
//! object holding exactly the members `id` (an unsigned integer per JSON's
//! grammar — no sign, no leading zero — that fits a byte) and `positive`
//! (a `true`/`false` literal), in either order, with optional ASCII
//! whitespace between tokens. Objects with further members are rejected,
//! where a lenient JSON reader would ignore them: a submission is a fixed
//! two-field form, and anything else is answered with the error envelope.
use vstd::prelude::*;
use vstd::string::*;

use crate::bytes::{match_at, matches_at};
use crate::dec;
use crate::response::append_bytes;

verus! {

pub const QUOTE: u8 = 34;

pub const LBRACE: u8 = 123;

pub const RBRACE: u8 = 125;

pub const COLON_B: u8 = 58;

pub const COMMA: u8 = 44;

pub open spec fn tok_id() -> Seq<u8> {
    seq![QUOTE, 'i' as u8, 'd' as u8, QUOTE]
}

pub open spec fn tok_positive() -> Seq<u8> {
    seq![
        QUOTE,
        'p' as u8,
        'o' as u8,
        's' as u8,
        'i' as u8,
        't' as u8,
        'i' as u8,
        'v' as u8,
        'e' as u8,
        QUOTE,
    ]
}

pub open spec fn tok_true() -> Seq<u8> {
    seq!['t' as u8, 'r' as u8, 'u' as u8, 'e' as u8]
}

pub open spec fn tok_false() -> Seq<u8> {
    seq!['f' as u8, 'a' as u8, 'l' as u8, 's' as u8, 'e' as u8]
}

fn tok_id_vec() -> (r: Vec<u8>)
    ensures
        r@ == tok_id(),
{
    let mut v: Vec<u8> = Vec::new();
    v.push(QUOTE);
    v.push('i' as u8);
    v.push('d' as u8);
    v.push(QUOTE);
    proof {
        assert(v@ =~= tok_id());
    }
    v
}

fn tok_positive_vec() -> (r: Vec<u8>)
    ensures
        r@ == tok_positive(),
{
    let mut v: Vec<u8> = Vec::new();
    v.push(QUOTE);
    v.push('p' as u8);
    v.push('o' as u8);
    v.push('s' as u8);
    v.push('i' as u8);
    v.push('t' as u8);
    v.push('i' as u8);
    v.push('v' as u8);
    v.push('e' as u8);
    v.push(QUOTE);
    proof {
        assert(v@ =~= tok_positive());
    }
    v
}

fn tok_true_vec() -> (r: Vec<u8>)
    ensures
        r@ == tok_true(),
{
    let mut v: Vec<u8> = Vec::new();
    v.push('t' as u8);
    v.push('r' as u8);
    v.push('u' as u8);
    v.push('e' as u8);
    proof {
        assert(v@ =~= tok_true());
    }
    v
}

fn tok_false_vec() -> (r: Vec<u8>)
    ensures
        r@ == tok_false(),
{
    let mut v: Vec<u8> = Vec::new();
    v.push('f' as u8);
    v.push('a' as u8);
    v.push('l' as u8);
    v.push('s' as u8);
    v.push('e' as u8);
    proof {
        assert(v@ =~= tok_false());
    }
    v
}

pub open spec fn is_ws(b: u8) -> bool {
    b == 32 || b == 9 || b == 13 || b == 10
}

/// The first index at or after `i` holding no whitespace.
pub open spec fn spec_skip_ws(s: Seq<u8>, i: int) -> int
    decreases s.len() - i,
{
    if 0 <= i < s.len() && is_ws(s[i]) {
        spec_skip_ws(s, i + 1)
    } else {
        i
    }
}

/// The first index at or after `i` holding no decimal digit.
pub open spec fn spec_digits_end(s: Seq<u8>, i: int) -> int
    decreases s.len() - i,
{
    if 0 <= i < s.len() && dec::is_digit(s[i]) {
        spec_digits_end(s, i + 1)
    } else {
        i
    }
}

/// One object member at `i`: `("id", value, next)` gives `(true, value,
/// next)`, `("positive", bool, next)` gives `(false, 0 or 1, next)`.
pub open spec fn spec_parse_member(s: Seq<u8>, i: int) -> Option<(bool, int, int)> {
    if matches_at(s, tok_id(), i) {
        let j = spec_skip_ws(s, i + 4);
        if 0 <= j < s.len() && s[j] == COLON_B {
            let k = spec_skip_ws(s, j + 1);
            let e = spec_digits_end(s, k);
            if e > k && (e - k == 1 || s[k] != dec::ZERO_DIGIT) {
                Some((true, dec::spec_digits_val(s.subrange(k, e)), e))
            } else {
                None
            }
        } else {
            None
        }
    } else if matches_at(s, tok_positive(), i) {
        let j = spec_skip_ws(s, i + 10);
        if 0 <= j < s.len() && s[j] == COLON_B {
            let k = spec_skip_ws(s, j + 1);
            if matches_at(s, tok_true(), k) {
                Some((false, 1, k + 4))
            } else if matches_at(s, tok_false(), k) {
                Some((false, 0, k + 5))
            } else {
                None
            }
        } else {
            None
        }
    } else {
        None
    }
}

/// The parsed rating submission: an object holding exactly an `id` member
/// whose value fits a byte and a `positive` member, in either order.
pub open spec fn spec_parse_rating_body(s: Seq<u8>) -> Option<(u8, bool)> {
    let i0 = spec_skip_ws(s, 0);
    if 0 <= i0 < s.len() && s[i0] == LBRACE {
        match spec_parse_member(s, spec_skip_ws(s, i0 + 1)) {
            None => None,
            Some((first_is_id, v1, p1)) => {
                let c = spec_skip_ws(s, p1);
                if 0 <= c < s.len() && s[c] == COMMA {
                    match spec_parse_member(s, spec_skip_ws(s, c + 1)) {
                        None => None,
                        Some((second_is_id, v2, p2)) => {
                            let r = spec_skip_ws(s, p2);
                            if 0 <= r < s.len() && s[r] == RBRACE && spec_skip_ws(s, r + 1)
                                == s.len() && first_is_id != second_is_id {
                                let idv = if first_is_id {
                                    v1
                                } else {
                                    v2
                                };
                                let bv = if first_is_id {
                                    v2
                                } else {
                                    v1
                                };
                                if 0 <= idv <= 255 {
                                    Some((idv as u8, bv == 1))
                                } else {
                                    None
                                }
                            } else {
                                None
                            }
                        },
                    }
                } else {
                    None
                }
            },
        }
    } else {
        None
    }
}

fn skip_ws(s: &Vec<u8>, i: usize) -> (r: usize)
    requires
        i <= s@.len(),
    ensures
        r as int == spec_skip_ws(s@, i as int),
        i <= r <= s@.len(),
{
    let n = s.len();
    let mut j = i;
    while j < n && (s[j] == 32 || s[j] == 9 || s[j] == 13 || s[j] == 10)
        invariant
            i <= j <= n == s@.len(),
            spec_skip_ws(s@, i as int) == spec_skip_ws(s@, j as int),
        decreases n - j,
    {
        j = j + 1;
    }
    j
}

fn digits_end(s: &Vec<u8>, i: usize) -> (r: usize)
    requires
        i <= s@.len(),
    ensures
        r as int == spec_digits_end(s@, i as int),
        i <= r <= s@.len(),
{
    let n = s.len();
    let mut j = i;
    while j < n && s[j] >= dec::ZERO_DIGIT && s[j] <= dec::ZERO_DIGIT + 9
        invariant
            i <= j <= n == s@.len(),
            spec_digits_end(s@, i as int) == spec_digits_end(s@, j as int),
        decreases n - j,
    {
        j = j + 1;
    }
    j
}

/// Parses one object member at `i`. A numeric value above 255 is reported
/// as 256: the caller only asks whether the value fits a byte, and what it is
/// when it does.
fn parse_member(s: &Vec<u8>, i: usize) -> (r: Option<(bool, u64, usize)>)
    requires
        i <= s@.len(),
    ensures
        match r {
            Some((is_id, v, p)) => {
                &&& spec_parse_member(s@, i as int) is Some
                &&& spec_parse_member(s@, i as int).unwrap().0 == is_id
                &&& spec_parse_member(s@, i as int).unwrap().2 == p as int
                &&& p <= s@.len()
                &&& (v <= 255 ==> spec_parse_member(s@, i as int).unwrap().1 == v as int)
                &&& (v > 255 ==> spec_parse_member(s@, i as int).unwrap().1 > 255)
            },
            None => spec_parse_member(s@, i as int) is None,
        },
{
    let n = s.len();
    let vid = tok_id_vec();
    let vpos = tok_positive_vec();
    if n - i >= 4 && match_at(s, &vid, i) {
        let j = skip_ws(s, i + 4);
        if j < n && s[j] == COLON_B {
            let k = skip_ws(s, j + 1);
            let e = digits_end(s, k);
            if e > k && (e - k == 1 || s[k] != dec::ZERO_DIGIT) {
                proof {
                    lemma_digits_end_run(s@, k as int);
                }
                // The value of the digit run, reported as 256 once it can no
                // longer fit a byte.
                let mut acc: u64 = 0;
                let mut m: usize = k;
                while m < e
                    invariant
                        k <= m <= e <= s@.len(),
                        forall|q: int| k <= q < e ==> dec::is_digit(#[trigger] s@[q]),
                        acc <= 2560,
                        ({
                            let val = dec::spec_digits_val(s@.subrange(k as int, m as int));
                            (val <= 255 && acc == val) || (val > 255 && acc > 255)
                        }),
                    decreases e - m,
                {
                    let d: u64 = (s[m] - dec::ZERO_DIGIT) as u64;
                    proof {
                        let pre = s@.subrange(k as int, m as int);
                        let post = s@.subrange(k as int, m + 1);
                        assert(post.drop_last() =~= pre);
                        assert(dec::spec_digits_val(post) == dec::spec_digits_val(pre) * 10 + (
                        s@[m as int] - dec::ZERO_DIGIT));
                        if dec::spec_digits_val(pre) > 255 {
                            assert(dec::spec_digits_val(pre) * 10 > 2550);
                        }
                    }
                    acc = if acc <= 255 {
                        acc * 10 + d
                    } else {
                        2560
                    };
                    if acc > 255 {
                        acc = 256;
                    }
                    m = m + 1;
                }
                Some((true, acc, e))
            } else {
                None
            }
        } else {
            None
        }
    } else if n - i >= 10 && match_at(s, &vpos, i) {
        let j = skip_ws(s, i + 10);
        if j < n && s[j] == COLON_B {
            let k = skip_ws(s, j + 1);
            let vtrue = tok_true_vec();
            let vfalse = tok_false_vec();
            if n - k >= 4 && match_at(s, &vtrue, k) {
                Some((false, 1, k + 4))
            } else if n - k >= 5 && match_at(s, &vfalse, k) {
                Some((false, 0, k + 5))
            } else {
                None
            }
        } else {
            None
        }
    } else {
        None
    }
}

/// Up to the digit-run end, every byte is a digit, and the end is in range.
proof fn lemma_digits_end_run(s: Seq<u8>, i: int)
    ensures
        i <= spec_digits_end(s, i),
        spec_digits_end(s, i) <= s.len() || spec_digits_end(s, i) == i,
        forall|j: int| i <= j < spec_digits_end(s, i) ==> dec::is_digit(#[trigger] s[j]),
    decreases s.len() - i,
{
    if 0 <= i < s.len() && dec::is_digit(s[i]) {
        lemma_digits_end_run(s, i + 1);
    }
}

/// The submitted rating: `{"id": <0..=255>, "positive": <bool>}`, members in
/// either order; anything else — further members included — is rejected.
pub fn parse_rating_body(s: &Vec<u8>) -> (r: Option<(u8, bool)>)
    ensures
        r == spec_parse_rating_body(s@),
{
    let n = s.len();
    let i0 = skip_ws(s, 0);
    if i0 >= n || s[i0] != LBRACE {
        return None;
    }
    let m1 = skip_ws(s, i0 + 1);
    let (first_is_id, v1, p1): (bool, u64, usize) = match parse_member(s, m1) {
        Some(t) => t,
        None => {
            return None;
        },
    };
    let c = skip_ws(s, p1);
    if c >= n || s[c] != COMMA {
        return None;
    }
    let m2 = skip_ws(s, c + 1);
    let (second_is_id, v2, p2): (bool, u64, usize) = match parse_member(s, m2) {
        Some(t) => t,
        None => {
            return None;
        },
    };
    let rb = skip_ws(s, p2);
    if rb >= n || s[rb] != RBRACE {
        return None;
    }
    if skip_ws(s, rb + 1) != n {
        return None;
    }
    if first_is_id == second_is_id {
        return None;
    }
    let idv: u64 = if first_is_id {
        v1
    } else {
        v2
    };
    let bv: u64 = if first_is_id {
        v2
    } else {
        v1
    };
    if idv > 255 {
        return None;
    }
    Some((idv as u8, bv == 1))
}

/// `{"data":{"visits":N}}`.
pub open spec fn spec_visits_json(v: u64) -> Seq<u8> {
    "{\"data\":{\"visits\":".spec_bytes() + dec::spec_dec(v as nat) + "}}".spec_bytes()
}

/// Emits the visits envelope.
pub fn visits_json(v: u64) -> (r: Vec<u8>)
    ensures
        r@ == spec_visits_json(v),
{
    let mut out: Vec<u8> = "{\"data\":{\"visits\":".as_bytes_vec();
    let d = dec::format_u64(v);
    append_bytes(&mut out, &d);
    let tail = "}}".as_bytes_vec();
    append_bytes(&mut out, &tail);
    out
}

/// `{"data":{"id":I,"rating":R}}`.
pub open spec fn spec_rating_json(id: u8, rating: i64) -> Seq<u8> {
    "{\"data\":{\"id\":".spec_bytes() + dec::spec_dec(id as nat) + ",\"rating\":".spec_bytes()
        + dec::spec_dec_int(rating as int) + "}}".spec_bytes()
}

/// Emits the single-rating envelope.
pub fn rating_json(id: u8, rating: i64) -> (r: Vec<u8>)
    ensures
        r@ == spec_rating_json(id, rating),
{
    let mut out: Vec<u8> = "{\"data\":{\"id\":".as_bytes_vec();
    let d = dec::format_u64(id as u64);
    append_bytes(&mut out, &d);
    let mid = ",\"rating\":".as_bytes_vec();
    append_bytes(&mut out, &mid);
    let d = dec::format_i64(rating);
    append_bytes(&mut out, &d);
    let tail = "}}".as_bytes_vec();
    append_bytes(&mut out, &tail);
    out
}

/// The object members of the ratings map, `"id":rating` in stored order,
/// comma-separated.
pub open spec fn spec_ratings_entries(s: Seq<(u8, i64)>, i: int) -> Seq<u8>
    decreases s.len() - i,
{
    if 0 <= i < s.len() {
        (if i == 0 {
            Seq::<u8>::empty()
        } else {
            ",".spec_bytes()
        }) + "\"".spec_bytes() + dec::spec_dec(s[i].0 as nat) + "\":".spec_bytes()
            + dec::spec_dec_int(s[i].1 as int) + spec_ratings_entries(s, i + 1)
    } else {
        Seq::empty()
    }
}

/// `{"data":{"review_ratings":{"5":3,...}}}`, keys in stored order.
pub open spec fn spec_ratings_json(s: Seq<(u8, i64)>) -> Seq<u8> {
    "{\"data\":{\"review_ratings\":{".spec_bytes() + spec_ratings_entries(s, 0)
        + "}}}".spec_bytes()
}

/// Emits the ratings-map envelope.
pub fn ratings_json(s: &Vec<(u8, i64)>) -> (r: Vec<u8>)
    ensures
        r@ == spec_ratings_json(s@),
{
    let mut out: Vec<u8> = "{\"data\":{\"review_ratings\":{".as_bytes_vec();
    let ghost head = out@;
    let mut i: usize = 0;
    while i < s.len()
        invariant
            i <= s@.len(),
            head + spec_ratings_entries(s@, 0) == out@ + spec_ratings_entries(s@, i as int),
        decreases s@.len() - i,
    {
        let ghost pre = out@;
        let e = s[i];
        if i > 0 {
            let comma = ",".as_bytes_vec();
            append_bytes(&mut out, &comma);
        }
        let q = "\"".as_bytes_vec();
        append_bytes(&mut out, &q);
        let d = dec::format_u64(e.0 as u64);
        append_bytes(&mut out, &d);
        let qc = "\":".as_bytes_vec();
        append_bytes(&mut out, &qc);
        let d = dec::format_i64(e.1);
        append_bytes(&mut out, &d);
        proof {
            let piece = (if i == 0 {
                Seq::<u8>::empty()
            } else {
                ",".spec_bytes()
            }) + "\"".spec_bytes() + dec::spec_dec(s@[i as int].0 as nat) + "\":".spec_bytes()
                + dec::spec_dec_int(s@[i as int].1 as int);
            assert(out@ =~= pre + piece);
            assert(spec_ratings_entries(s@, i as int) == piece + spec_ratings_entries(
                s@,
                i + 1,
            )) by {
                assert(piece + spec_ratings_entries(s@, i + 1) =~= (if i == 0 {
                    Seq::<u8>::empty()
                } else {
                    ",".spec_bytes()
                }) + "\"".spec_bytes() + dec::spec_dec(s@[i as int].0 as nat) + "\":".spec_bytes()
                    + dec::spec_dec_int(s@[i as int].1 as int) + spec_ratings_entries(s@, i + 1));
            }
            assert(pre + (piece + spec_ratings_entries(s@, i + 1)) =~= out@
                + spec_ratings_entries(s@, i + 1));
        }
        i = i + 1;
    }
    proof {
        assert(spec_ratings_entries(s@, s@.len() as int) =~= Seq::<u8>::empty());
        assert(out@ =~= head + spec_ratings_entries(s@, 0));
    }
    let tail = "}}}".as_bytes_vec();
    append_bytes(&mut out, &tail);
    proof {
        assert(out@ =~= spec_ratings_json(s@));
    }
    out
}

/// `{"message":"Invalid request body"}`.
pub open spec fn spec_invalid_body_json() -> Seq<u8> {
    "{\"message\":\"Invalid request body\"}".spec_bytes()
}

/// Emits the error envelope for a malformed rating submission.
pub fn invalid_body_json() -> (r: Vec<u8>)
    ensures
        r@ == spec_invalid_body_json(),
{
    "{\"message\":\"Invalid request body\"}".as_bytes_vec()
}

} // verus!
