//! Byte-sequence helpers: substring search, prefix tests, splitting and
//! subrange extraction, each proved against a direct `Seq<u8>` specification.
use vstd::prelude::*;

verus! {

/// `needle` occurs in `hay` starting at index `i`.
pub open spec fn matches_at(hay: Seq<u8>, needle: Seq<u8>, i: int) -> bool {
    &&& 0 <= i
    &&& i + needle.len() <= hay.len()
    &&& hay.subrange(i, i + needle.len()) == needle
}

/// The least index `i >= from` at which `needle` occurs in `hay`, if any.
pub open spec fn spec_find(hay: Seq<u8>, needle: Seq<u8>, from: int) -> Option<int>
    decreases hay.len() - from + 1,
{
    if from < 0 || from + needle.len() > hay.len() {
        None
    } else if hay.subrange(from, from + needle.len()) == needle {
        Some(from)
    } else {
        spec_find(hay, needle, from + 1)
    }
}

/// `needle` occurs somewhere in `hay`.
pub open spec fn spec_contains(hay: Seq<u8>, needle: Seq<u8>) -> bool {
    spec_find(hay, needle, 0) is Some
}

/// `hay` begins with `prefix`.
pub open spec fn spec_starts_with(hay: Seq<u8>, prefix: Seq<u8>) -> bool {
    matches_at(hay, prefix, 0)
}

pub proof fn lemma_find_props(hay: Seq<u8>, needle: Seq<u8>, from: int)
    requires
        0 <= from,
    ensures
        match spec_find(hay, needle, from) {
            Some(i) => from <= i && matches_at(hay, needle, i) && (forall|j: int|
                from <= j < i ==> !matches_at(hay, needle, j)),
            None => forall|j: int| from <= j ==> !matches_at(hay, needle, j),
        },
    decreases hay.len() - from + 1,
{
    if from + needle.len() > hay.len() {
        assert forall|j: int| from <= j implies !matches_at(hay, needle, j) by {}
    } else if hay.subrange(from, from + needle.len()) == needle {
    } else {
        lemma_find_props(hay, needle, from + 1);
    }
}

/// Copies `v[start..end]` into a fresh vector.
pub fn sub_vec(v: &Vec<u8>, start: usize, end: usize) -> (r: Vec<u8>)
    requires
        start <= end <= v@.len(),
    ensures
        r@ == v@.subrange(start as int, end as int),
{
    let mut r: Vec<u8> = Vec::new();
    let mut i: usize = start;
    while i < end
        invariant
            start <= i <= end <= v@.len(),
            r@ == v@.subrange(start as int, i as int),
        decreases end - i,
    {
        r.push(v[i]);
        proof {
            assert(r@ =~= v@.subrange(start as int, i + 1));
        }
        i = i + 1;
    }
    r
}

/// Copies the whole of `v`.
pub fn copy_vec(v: &Vec<u8>) -> (r: Vec<u8>)
    ensures
        r@ == v@,
{
    let r = sub_vec(v, 0, v.len());
    proof {
        assert(v@.subrange(0, v@.len() as int) =~= v@);
    }
    r
}

/// Byte-vector equality, decided elementwise.
pub fn eq_vec(a: &Vec<u8>, b: &Vec<u8>) -> (r: bool)
    ensures
        r == (a@ == b@),
{
    if a.len() != b.len() {
        return false;
    }
    let mut i: usize = 0;
    while i < a.len()
        invariant
            a@.len() == b@.len(),
            i <= a@.len(),
            forall|j: int| 0 <= j < i ==> a@[j] == b@[j],
        decreases a@.len() - i,
    {
        if a[i] != b[i] {
            return false;
        }
        i = i + 1;
    }
    proof {
        assert(a@ =~= b@);
    }
    true
}

/// `needle` occurs in `hay` at index `i` (elementwise check).
pub fn match_at(hay: &Vec<u8>, needle: &Vec<u8>, i: usize) -> (r: bool)
    requires
        i + needle@.len() <= hay@.len(),
    ensures
        r == matches_at(hay@, needle@, i as int),
{
    let hlen = hay.len();
    let mut k: usize = 0;
    while k < needle.len()
        invariant
            hlen == hay@.len(),
            i + needle@.len() <= hay@.len(),
            k <= needle@.len(),
            forall|m: int| 0 <= m < k ==> hay@[i + m] == needle@[m],
        decreases needle@.len() - k,
    {
        if hay[i + k] != needle[k] {
            proof {
                if matches_at(hay@, needle@, i as int) {
                    assert(hay@.subrange(i as int, i + needle@.len())[k as int] == needle@[k as int]);
                }
            }
            return false;
        }
        k = k + 1;
    }
    proof {
        assert(hay@.subrange(i as int, i + needle@.len()) =~= needle@);
    }
    true
}

/// The least index `i >= from` at which `needle` occurs in `hay`.
pub fn find_sub(hay: &Vec<u8>, needle: &Vec<u8>, from: usize) -> (r: Option<usize>)
    ensures
        match r {
            Some(i) => spec_find(hay@, needle@, from as int) == Some(i as int),
            None => spec_find(hay@, needle@, from as int) is None,
        },
{
    if needle.len() > hay.len() {
        proof {
            lemma_find_none_short(hay@, needle@, from as int);
        }
        return None;
    }
    if needle.len() == 0 {
        if from <= hay.len() {
            proof {
                assert(hay@.subrange(from as int, from as int) =~= needle@);
            }
            return Some(from);
        } else {
            return None;
        }
    }
    let limit = hay.len() - needle.len();
    let mut i = from;
    while i <= limit
        invariant
            0 < needle@.len() <= hay@.len(),
            hay@.len() <= usize::MAX,
            limit == hay@.len() - needle@.len(),
            from <= i,
            spec_find(hay@, needle@, from as int) == spec_find(hay@, needle@, i as int),
        decreases limit + 1 - i,
    {
        if match_at(hay, needle, i) {
            return Some(i);
        }
        i = i + 1;
    }
    None
}

proof fn lemma_find_none_short(hay: Seq<u8>, needle: Seq<u8>, from: int)
    requires
        0 <= from,
        needle.len() > hay.len(),
    ensures
        spec_find(hay, needle, from) is None,
    decreases hay.len() - from,
{
    if !(from + needle.len() > hay.len()) {
        assert(false);
    }
}

/// `needle` occurs somewhere in `hay`.
pub fn contains_sub(hay: &Vec<u8>, needle: &Vec<u8>) -> (r: bool)
    ensures
        r == spec_contains(hay@, needle@),
{
    find_sub(hay, needle, 0).is_some()
}

/// `hay` begins with `prefix`.
pub fn starts_with(hay: &Vec<u8>, prefix: &Vec<u8>) -> (r: bool)
    ensures
        r == spec_starts_with(hay@, prefix@),
{
    if prefix.len() > hay.len() {
        return false;
    }
    match_at(hay, prefix, 0)
}

/// The views of a sequence of byte vectors.
pub open spec fn views_of(s: Seq<Vec<u8>>) -> Seq<Seq<u8>> {
    s.map_values(|v: Vec<u8>| v@)
}

/// `s` split at every occurrence of `sep`, leftmost-first; the separators are
/// not part of the pieces. A `sep` that never occurs gives one piece, `s` itself.
pub open spec fn spec_split(s: Seq<u8>, sep: Seq<u8>) -> Seq<Seq<u8>>
    decreases s.len(),
{
    if sep.len() == 0 {
        seq![s]
    } else {
        match spec_find(s, sep, 0) {
            None => seq![s],
            Some(i) => if 0 <= i && i + sep.len() <= s.len() {
                seq![s.subrange(0, i)] + spec_split(
                    s.subrange(i + sep.len(), s.len() as int),
                    sep,
                )
            } else {
                seq![s]
            },
        }
    }
}

/// Splits `s` at every occurrence of `sep`.
pub fn split_sub(s: &Vec<u8>, sep: &Vec<u8>) -> (r: Vec<Vec<u8>>)
    requires
        sep@.len() > 0,
    ensures
        views_of(r@) == spec_split(s@, sep@),
    decreases s@.len(),
{
    match find_sub(s, sep, 0) {
        None => {
            let mut r: Vec<Vec<u8>> = Vec::new();
            r.push(copy_vec(s));
            proof {
                assert(views_of(r@) =~= spec_split(s@, sep@));
            }
            r
        },
        Some(i) => {
            proof {
                lemma_find_props(s@, sep@, 0);
            }
            let n = s.len();
            let head = sub_vec(s, 0, i);
            let rest = sub_vec(s, i + sep.len(), n);
            let mut r = split_sub(&rest, sep);
            r.insert(0, head);
            proof {
                assert(views_of(r@) =~= spec_split(s@, sep@));
            }
            r
        },
    }
}


/// Decides `vstd::utf8::valid_utf8` for a byte vector: each scalar must have
/// a well-formed leading byte, the right continuation bytes, no overlong
/// encoding, and no surrogate value.
pub fn utf8_valid(v: &Vec<u8>) -> (r: bool)
    ensures
        r == vstd::utf8::valid_utf8(v@),
{
    let n = v.len();
    let mut i: usize = 0;
    proof {
        assert(v@.subrange(0, n as int) =~= v@);
    }
    while i < n
        invariant
            i <= n == v@.len(),
            vstd::utf8::valid_utf8(v@) == vstd::utf8::valid_utf8(v@.subrange(i as int, n as int)),
        decreases n - i,
    {
        let ghost s = v@.subrange(i as int, n as int);
        let b0 = v[i];
        proof {
            assert(s[0] == b0);
        }
        let width: usize;
        if b0 <= 0x7f {
            proof {
                lemma_scalar_width_1(s);
            }
            width = 1;
        } else if 0xc0 <= b0 && b0 <= 0xdf {
            if n - i < 2 {
                proof {
                    lemma_not_scalar_short(s, 2);
                }
                return false;
            }
            let b1 = v[i + 1];
            proof {
                assert(s[1] == b1);
            }
            if !(0x80 <= b1 && b1 <= 0xbf) || b0 < 0xc2 {
                proof {
                    lemma_scalar_width_2(s, b0, b1);
                }
                return false;
            }
            proof {
                lemma_scalar_width_2(s, b0, b1);
            }
            width = 2;
        } else if 0xe0 <= b0 && b0 <= 0xef {
            if n - i < 3 {
                proof {
                    lemma_not_scalar_short(s, 3);
                }
                return false;
            }
            let b1 = v[i + 1];
            let b2 = v[i + 2];
            proof {
                assert(s[1] == b1);
                assert(s[2] == b2);
            }
            let ok = (0x80 <= b1 && b1 <= 0xbf) && (0x80 <= b2 && b2 <= 0xbf) && !(b0 == 0xe0 && b1
                < 0xa0) && !(b0 == 0xed && b1 >= 0xa0);
            proof {
                lemma_scalar_width_3(s, b0, b1, b2);
            }
            if !ok {
                return false;
            }
            width = 3;
        } else if 0xf0 <= b0 && b0 <= 0xf7 {
            if n - i < 4 {
                proof {
                    lemma_not_scalar_short(s, 4);
                }
                return false;
            }
            let b1 = v[i + 1];
            let b2 = v[i + 2];
            let b3 = v[i + 3];
            proof {
                assert(s[1] == b1);
                assert(s[2] == b2);
                assert(s[3] == b3);
            }
            let ok = (0x80 <= b1 && b1 <= 0xbf) && (0x80 <= b2 && b2 <= 0xbf) && (0x80 <= b3 && b3
                <= 0xbf) && !(b0 == 0xf0 && b1 < 0x90) && (b0 < 0xf4 || (b0 == 0xf4 && b1 <= 0x8f))
                && b0 <= 0xf4;
            proof {
                lemma_scalar_width_4(s, b0, b1, b2, b3);
            }
            if !ok {
                return false;
            }
            width = 4;
        } else {
            proof {
                lemma_not_scalar_bad_lead(s);
            }
            return false;
        }
        proof {
            assert(vstd::utf8::pop_first_scalar(s) =~= v@.subrange(i + width, n as int));
        }
        i = i + width;
    }
    proof {
        assert(v@.subrange(n as int, n as int) =~= Seq::<u8>::empty());
    }
    true
}

/// A sequence too short for its leading byte's width holds no valid scalar.
proof fn lemma_not_scalar_short(s: Seq<u8>, width: int)
    requires
        s.len() > 0,
        width == 2 ==> vstd::utf8::is_leading_byte_width_2(s[0]),
        width == 3 ==> vstd::utf8::is_leading_byte_width_3(s[0]),
        width == 4 ==> vstd::utf8::is_leading_byte_width_4(s[0]),
        2 <= width <= 4,
        s.len() < width,
    ensures
        !vstd::utf8::valid_utf8(s),
{
    assert(!vstd::utf8::valid_leading_and_continuation_bytes_first_codepoint(s));
}

/// A byte that is neither a leading byte nor ASCII starts no valid scalar.
proof fn lemma_not_scalar_bad_lead(s: Seq<u8>)
    requires
        s.len() > 0,
        0x80 <= s[0] <= 0xbf || 0xf8 <= s[0],
    ensures
        !vstd::utf8::valid_utf8(s),
{
    assert(!vstd::utf8::valid_leading_and_continuation_bytes_first_codepoint(s));
}

/// An ASCII byte is a valid one-byte scalar.
proof fn lemma_scalar_width_1(s: Seq<u8>)
    requires
        s.len() > 0,
        s[0] <= 0x7f,
    ensures
        vstd::utf8::valid_first_scalar(s),
        vstd::utf8::length_of_first_scalar(s) == 1,
        vstd::utf8::valid_utf8(s) == vstd::utf8::valid_utf8(vstd::utf8::pop_first_scalar(s)),
{
    let b0 = s[0];
    assert((b0 & 0x7F) < 0xd800u32 && (b0 & 0x7F) >= 0) by (bit_vector)
        requires
            b0 <= 0x7f,
    ;
}

/// The exact condition for a two-byte scalar at the front.
proof fn lemma_scalar_width_2(s: Seq<u8>, b0: u8, b1: u8)
    requires
        s.len() >= 2,
        s[0] == b0,
        s[1] == b1,
        0xc0 <= b0 <= 0xdf,
    ensures
        vstd::utf8::valid_first_scalar(s) == (0x80 <= b1 <= 0xbf && b0 >= 0xc2),
        vstd::utf8::valid_first_scalar(s) ==> vstd::utf8::length_of_first_scalar(s) == 2,
        !vstd::utf8::valid_first_scalar(s) ==> !vstd::utf8::valid_utf8(s),
        vstd::utf8::valid_utf8(s) == (vstd::utf8::valid_first_scalar(s) && vstd::utf8::valid_utf8(
            vstd::utf8::pop_first_scalar(s),
        )),
{
    if 0x80 <= b1 <= 0xbf {
        let cp = vstd::utf8::codepoint_width_2(b0, b1);
        assert(cp == ((b0 & 0x1F) as u32) << 6 | ((b1 & 0x3f) as u32));
        assert((((b0 & 0x1F) as u32) << 6 | ((b1 & 0x3f) as u32)) < 0xd800) by (bit_vector)
            requires
                0xc0 <= b0 <= 0xdf,
        ;
        assert(((((b0 & 0x1F) as u32) << 6 | ((b1 & 0x3f) as u32)) >= 0x80) == (b0 >= 0xc2))
            by (bit_vector)
            requires
                0xc0 <= b0 <= 0xdf,
        ;
    }
}

/// The exact condition for a three-byte scalar at the front.
proof fn lemma_scalar_width_3(s: Seq<u8>, b0: u8, b1: u8, b2: u8)
    requires
        s.len() >= 3,
        s[0] == b0,
        s[1] == b1,
        s[2] == b2,
        0xe0 <= b0 <= 0xef,
    ensures
        vstd::utf8::valid_first_scalar(s) == (0x80 <= b1 <= 0xbf && 0x80 <= b2 <= 0xbf && !(b0
            == 0xe0 && b1 < 0xa0) && !(b0 == 0xed && b1 >= 0xa0)),
        vstd::utf8::valid_first_scalar(s) ==> vstd::utf8::length_of_first_scalar(s) == 3,
        !vstd::utf8::valid_first_scalar(s) ==> !vstd::utf8::valid_utf8(s),
        vstd::utf8::valid_utf8(s) == (vstd::utf8::valid_first_scalar(s) && vstd::utf8::valid_utf8(
            vstd::utf8::pop_first_scalar(s),
        )),
{
    if 0x80 <= b1 <= 0xbf && 0x80 <= b2 <= 0xbf {
        let cp = vstd::utf8::codepoint_width_3(b0, b1, b2);
        assert(cp == ((b0 & 0x0F) as u32) << 12 | ((b1 & 0x3f) as u32) << 6 | ((b2
            & 0x3f) as u32));
        assert(((((b0 & 0x0F) as u32) << 12 | ((b1 & 0x3f) as u32) << 6 | ((b2 & 0x3f) as u32))
            >= 0x800) == !(b0 == 0xe0 && b1 < 0xa0)) by (bit_vector)
            requires
                0xe0 <= b0 <= 0xef,
                0x80 <= b1 <= 0xbf,
        ;
        assert((0xd800 <= (((b0 & 0x0F) as u32) << 12 | ((b1 & 0x3f) as u32) << 6 | ((b2
            & 0x3f) as u32)) <= 0xdfff) == (b0 == 0xed && b1 >= 0xa0)) by (bit_vector)
            requires
                0xe0 <= b0 <= 0xef,
                0x80 <= b1 <= 0xbf,
                0x80 <= b2 <= 0xbf,
        ;
    }
}

/// The exact condition for a four-byte scalar at the front.
proof fn lemma_scalar_width_4(s: Seq<u8>, b0: u8, b1: u8, b2: u8, b3: u8)
    requires
        s.len() >= 4,
        s[0] == b0,
        s[1] == b1,
        s[2] == b2,
        s[3] == b3,
        0xf0 <= b0 <= 0xf7,
    ensures
        vstd::utf8::valid_first_scalar(s) == (0x80 <= b1 <= 0xbf && 0x80 <= b2 <= 0xbf && 0x80
            <= b3 <= 0xbf && !(b0 == 0xf0 && b1 < 0x90) && (b0 < 0xf4 || (b0 == 0xf4 && b1
            <= 0x8f)) && b0 <= 0xf4),
        vstd::utf8::valid_first_scalar(s) ==> vstd::utf8::length_of_first_scalar(s) == 4,
        !vstd::utf8::valid_first_scalar(s) ==> !vstd::utf8::valid_utf8(s),
        vstd::utf8::valid_utf8(s) == (vstd::utf8::valid_first_scalar(s) && vstd::utf8::valid_utf8(
            vstd::utf8::pop_first_scalar(s),
        )),
{
    if 0x80 <= b1 <= 0xbf && 0x80 <= b2 <= 0xbf && 0x80 <= b3 <= 0xbf {
        let cp = vstd::utf8::codepoint_width_4(b0, b1, b2, b3);
        assert(cp == ((b0 & 0x07) as u32) << 18 | ((b1 & 0x3f) as u32) << 12 | ((b2
            & 0x3f) as u32) << 6 | ((b3 & 0x3f) as u32));
        assert(((((b0 & 0x07) as u32) << 18 | ((b1 & 0x3f) as u32) << 12 | ((b2 & 0x3f) as u32)
            << 6 | ((b3 & 0x3f) as u32)) >= 0x10000) == !(b0 == 0xf0 && b1 < 0x90))
            by (bit_vector)
            requires
                0xf0 <= b0 <= 0xf7,
                0x80 <= b1 <= 0xbf,
        ;
        assert(((((b0 & 0x07) as u32) << 18 | ((b1 & 0x3f) as u32) << 12 | ((b2 & 0x3f) as u32)
            << 6 | ((b3 & 0x3f) as u32)) <= 0x10ffff) == ((b0 < 0xf4 || (b0 == 0xf4 && b1
            <= 0x8f)) && b0 <= 0xf4)) by (bit_vector)
            requires
                0xf0 <= b0 <= 0xf7,
                0x80 <= b1 <= 0xbf,
                0x80 <= b2 <= 0xbf,
                0x80 <= b3 <= 0xbf,
        ;
        assert(!(0xd800 <= (((b0 & 0x07) as u32) << 18 | ((b1 & 0x3f) as u32) << 12 | ((b2
            & 0x3f) as u32) << 6 | ((b3 & 0x3f) as u32)) <= 0xdfff) || !((((b0 & 0x07) as u32)
            << 18 | ((b1 & 0x3f) as u32) << 12 | ((b2 & 0x3f) as u32) << 6 | ((b3
            & 0x3f) as u32)) >= 0x10000)) by (bit_vector);
    }
}

} // verus!

