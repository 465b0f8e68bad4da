//! Textual IP addresses, as std's address parsers accept them: dotted-quad
//! IPv4 (octets without leading zeros), and the IPv6 forms — colon-separated
//! groups of one to four hex digits, at most one `::` compression standing
//! for one or more zero groups, and an optional embedded dotted-quad as the
//! final 32 bits.
use vstd::prelude::*;

use crate::bytes::{find_sub, lemma_find_props, spec_find, sub_vec};
use crate::dec;

verus! {

pub const IPV4_DOT: u8 = 46;

pub const IPV6_COLON: u8 = 58;

/// One IPv4 octet: decimal digits, no leading zero unless the octet is `0`
/// itself, value at most 255.
pub open spec fn spec_parse_octet(s: Seq<u8>) -> Option<u8> {
    match dec::spec_parse_u64(s) {
        Some(v) => if v <= 255 && (s.len() == 1 || s[0] != dec::ZERO_DIGIT) {
            Some(v as u8)
        } else {
            None
        },
        None => None,
    }
}

/// The value of a dotted-quad IPv4 address as the big-endian 32-bit value.
pub open spec fn spec_parse_ipv4(s: Seq<u8>) -> Option<u32> {
    match spec_find(s, seq![IPV4_DOT], 0) {
        None => None,
        Some(p1) => match spec_find(s, seq![IPV4_DOT], p1 + 1) {
            None => None,
            Some(p2) => match spec_find(s, seq![IPV4_DOT], p2 + 1) {
                None => None,
                Some(p3) => if spec_find(s, seq![IPV4_DOT], p3 + 1) is None && 0 <= p1 && p1 + 1
                    <= p2 && p2 + 1 <= p3 && p3 + 1 <= s.len() {
                    match (
                        spec_parse_octet(s.subrange(0, p1)),
                        spec_parse_octet(s.subrange(p1 + 1, p2)),
                        spec_parse_octet(s.subrange(p2 + 1, p3)),
                        spec_parse_octet(s.subrange(p3 + 1, s.len() as int)),
                    ) {
                        (Some(a), Some(b), Some(c), Some(d)) => Some(
                            ((((a as u32) * 256 + (b as u32)) * 256 + (c as u32)) * 256 + (
                            d as u32)) as u32,
                        ),
                        _ => None,
                    }
                } else {
                    None
                },
            },
        },
    }
}

fn ipv4_dot_vec() -> (r: Vec<u8>)
    ensures
        r@ == seq![IPV4_DOT],
{
    let mut v: Vec<u8> = Vec::new();
    v.push(IPV4_DOT);
    proof {
        assert(v@ =~= seq![IPV4_DOT]);
    }
    v
}

fn ipv6_colon_vec() -> (r: Vec<u8>)
    ensures
        r@ == seq![IPV6_COLON],
{
    let mut v: Vec<u8> = Vec::new();
    v.push(IPV6_COLON);
    proof {
        assert(v@ =~= seq![IPV6_COLON]);
    }
    v
}

fn ipv6_dcolon_vec() -> (r: Vec<u8>)
    ensures
        r@ == seq![IPV6_COLON, IPV6_COLON],
{
    let mut v: Vec<u8> = Vec::new();
    v.push(IPV6_COLON);
    v.push(IPV6_COLON);
    proof {
        assert(v@ =~= seq![IPV6_COLON, IPV6_COLON]);
    }
    v
}

fn parse_octet(s: &Vec<u8>) -> (r: Option<u8>)
    ensures
        r == spec_parse_octet(s@),
{
    match dec::parse_u64(s) {
        Some(v) => {
            if v <= 255 && (s.len() == 1 || s[0] != dec::ZERO_DIGIT) {
                Some(v as u8)
            } else {
                None
            }
        },
        None => None,
    }
}

/// Parses a dotted-quad IPv4 address.
pub fn parse_ipv4(s: &Vec<u8>) -> (r: Option<u32>)
    ensures
        r == spec_parse_ipv4(s@),
{
    let n = s.len();
    let dot = ipv4_dot_vec();
    let p1: usize = match find_sub(s, &dot, 0) {
        Some(p) => p,
        None => {
            return None;
        },
    };
    proof {
        lemma_find_props(s@, seq![IPV4_DOT], 0);
    }
    let p2: usize = match find_sub(s, &dot, p1 + 1) {
        Some(p) => p,
        None => {
            return None;
        },
    };
    proof {
        lemma_find_props(s@, seq![IPV4_DOT], p1 + 1);
    }
    let p3: usize = match find_sub(s, &dot, p2 + 1) {
        Some(p) => p,
        None => {
            return None;
        },
    };
    proof {
        lemma_find_props(s@, seq![IPV4_DOT], p2 + 1);
    }
    match find_sub(s, &dot, p3 + 1) {
        Some(_) => {
            return None;
        },
        None => {},
    }
    let pa = sub_vec(s, 0, p1);
    let pb = sub_vec(s, p1 + 1, p2);
    let pc = sub_vec(s, p2 + 1, p3);
    let pd = sub_vec(s, p3 + 1, n);
    let a: u8 = match parse_octet(&pa) {
        Some(v) => v,
        None => {
            return None;
        },
    };
    let b: u8 = match parse_octet(&pb) {
        Some(v) => v,
        None => {
            return None;
        },
    };
    let c: u8 = match parse_octet(&pc) {
        Some(v) => v,
        None => {
            return None;
        },
    };
    let d: u8 = match parse_octet(&pd) {
        Some(v) => v,
        None => {
            return None;
        },
    };
    Some((((a as u32) * 256 + (b as u32)) * 256 + (c as u32)) * 256 + (d as u32))
}

pub open spec fn is_hex_digit(b: u8) -> bool {
    (48 <= b <= 57) || (97 <= b <= 102) || (65 <= b <= 70)
}

/// The value of one hex digit.
pub open spec fn hex_digit_val(b: u8) -> int {
    if 48 <= b <= 57 {
        b - 48
    } else if 97 <= b <= 102 {
        b - 87
    } else {
        b - 55
    }
}

pub open spec fn all_hex(s: Seq<u8>) -> bool {
    forall|i: int| 0 <= i < s.len() ==> is_hex_digit(#[trigger] s[i])
}

/// The value of a hex digit string, most significant digit first.
pub open spec fn spec_hex_val(s: Seq<u8>) -> int
    decreases s.len(),
{
    if s.len() == 0 {
        0
    } else {
        spec_hex_val(s.drop_last()) * 16 + hex_digit_val(s.last())
    }
}

/// One IPv6 group: one to four hex digits.
pub open spec fn spec_parse_h16(s: Seq<u8>) -> Option<u16> {
    if 1 <= s.len() <= 4 && all_hex(s) {
        Some(spec_hex_val(s) as u16)
    } else {
        None
    }
}

proof fn lemma_hex_val_bound(s: Seq<u8>)
    requires
        all_hex(s),
        s.len() <= 4,
    ensures
        0 <= spec_hex_val(s),
        spec_hex_val(s) < 0x10000,
        s.len() <= 3 ==> spec_hex_val(s) < 0x1000,
        s.len() <= 2 ==> spec_hex_val(s) < 0x100,
        s.len() <= 1 ==> spec_hex_val(s) < 0x10,
    decreases s.len(),
{
    if s.len() > 0 {
        assert(all_hex(s.drop_last())) by {
            assert(forall|i: int|
                0 <= i < s.len() - 1 ==> #[trigger] s.drop_last()[i] == s[i]);
        }
        lemma_hex_val_bound(s.drop_last());
    }
}

fn parse_h16(s: &Vec<u8>) -> (r: Option<u16>)
    ensures
        r == spec_parse_h16(s@),
{
    let n = s.len();
    if n < 1 || n > 4 {
        return None;
    }
    let mut acc: u16 = 0;
    let mut i: usize = 0;
    while i < n
        invariant
            i <= n == s@.len() <= 4,
            all_hex(s@.subrange(0, i as int)),
            acc == spec_hex_val(s@.subrange(0, i as int)),
            acc < 0x1000 || i == n,
        decreases n - i,
    {
        let b = s[i];
        let d: u16;
        if 48 <= b && b <= 57 {
            d = (b - 48) as u16;
        } else if 97 <= b && b <= 102 {
            d = (b - 87) as u16;
        } else if 65 <= b && b <= 70 {
            d = (b - 55) as u16;
        } else {
            assert(!all_hex(s@));
            return None;
        }
        proof {
            assert(s@.subrange(0, i + 1).drop_last() =~= s@.subrange(0, i as int));
            assert(all_hex(s@.subrange(0, i + 1)));
            lemma_hex_val_bound(s@.subrange(0, i as int));
        }
        acc = acc * 16 + d;
        i = i + 1;
        proof {
            if i < n {
                lemma_hex_val_bound(s@.subrange(0, i as int));
            }
        }
    }
    proof {
        assert(s@.subrange(0, n as int) =~= s@);
    }
    Some(acc)
}

/// A colon-separated run of groups, hex or (when `allow_v4` and in final
/// position) an embedded dotted-quad counting as two groups. The empty
/// string is the empty run; an empty piece (a stray colon) is rejected.
pub open spec fn spec_parse_groups(s: Seq<u8>, allow_v4: bool) -> Option<Seq<u16>>
    decreases s.len(),
{
    if s.len() == 0 {
        Some(Seq::empty())
    } else {
        match spec_find(s, seq![IPV6_COLON], 0) {
            None => if allow_v4 && spec_find(s, seq![IPV4_DOT], 0) is Some {
                match spec_parse_ipv4(s) {
                    Some(v) => Some(seq![(v >> 16) as u16, (v & 0xffff) as u16]),
                    None => None,
                }
            } else {
                match spec_parse_h16(s) {
                    Some(h) => Some(seq![h]),
                    None => None,
                }
            },
            Some(c) => if 0 <= c && c + 1 < s.len() {
                match spec_parse_h16(s.subrange(0, c)) {
                    Some(h) => match spec_parse_groups(
                        s.subrange(c + 1, s.len() as int),
                        allow_v4,
                    ) {
                        Some(rest) => Some(seq![h] + rest),
                        None => None,
                    },
                    None => None,
                }
            } else {
                None
            },
        }
    }
}

fn parse_groups(s: &Vec<u8>, allow_v4: bool) -> (r: Option<Vec<u16>>)
    ensures
        match r {
            Some(g) => spec_parse_groups(s@, allow_v4) == Some(g@),
            None => spec_parse_groups(s@, allow_v4) is None,
        },
    decreases s@.len(),
{
    let n = s.len();
    if n == 0 {
        let g: Vec<u16> = Vec::new();
        proof {
            assert(g@ =~= Seq::<u16>::empty());
        }
        return Some(g);
    }
    let colon = ipv6_colon_vec();
    match find_sub(s, &colon, 0) {
        None => {
            let dot = ipv4_dot_vec();
            if allow_v4 && find_sub(s, &dot, 0).is_some() {
                match parse_ipv4(s) {
                    Some(v) => {
                        let mut g: Vec<u16> = Vec::new();
                        g.push((v >> 16) as u16);
                        g.push((v & 0xffff) as u16);
                        proof {
                            assert(g@ =~= seq![(v >> 16) as u16, (v & 0xffff) as u16]);
                        }
                        Some(g)
                    },
                    None => None,
                }
            } else {
                match parse_h16(s) {
                    Some(h) => {
                        let mut g: Vec<u16> = Vec::new();
                        g.push(h);
                        proof {
                            assert(g@ =~= seq![h]);
                        }
                        Some(g)
                    },
                    None => None,
                }
            }
        },
        Some(c) => {
            proof {
                lemma_find_props(s@, seq![IPV6_COLON], 0);
            }
            if c + 1 >= n {
                return None;
            }
            let head = sub_vec(s, 0, c);
            let h: u16 = match parse_h16(&head) {
                Some(h) => h,
                None => {
                    return None;
                },
            };
            let tail = sub_vec(s, c + 1, n);
            match parse_groups(&tail, allow_v4) {
                Some(mut rest) => {
                    rest.insert(0, h);
                    proof {
                        assert(rest@ =~= seq![h] + rest@.subrange(1, rest@.len() as int));
                    }
                    Some(rest)
                },
                None => None,
            }
        },
    }
}

/// The 128-bit value of eight 16-bit groups, most significant first.
pub open spec fn groups_val(g: Seq<u16>) -> nat
    decreases g.len(),
{
    if g.len() == 0 {
        0
    } else {
        (groups_val(g.drop_last()) * 0x10000 + g.last()) as nat
    }
}

proof fn lemma_groups_val_pow(g: Seq<u16>)
    ensures
        groups_val(g) < crate::codec::pow256(2 * g.len()),
    decreases g.len(),
{
    if g.len() == 0 {
        assert(crate::codec::pow256(0) == 1);
    } else {
        lemma_groups_val_pow(g.drop_last());
        let p = crate::codec::pow256((2 * (g.len() - 1)) as nat);
        assert(crate::codec::pow256(2 * g.len()) == 256 * crate::codec::pow256(
            (2 * g.len() - 1) as nat,
        ));
        assert(crate::codec::pow256((2 * g.len() - 1) as nat) == 256 * p);
        assert(groups_val(g.drop_last()) * 0x10000 + g.last() < p * 0x10000);
    }
}

proof fn lemma_groups_val_bound(g: Seq<u16>)
    requires
        g.len() <= 8,
    ensures
        groups_val(g) < 0x1_0000_0000_0000_0000_0000_0000_0000_0000,
    decreases g.len(),
{
    lemma_groups_val_pow(g);
    crate::codec::lemma_pow256_mono(2 * g.len(), 16);
    crate::codec::lemma_pow256_concrete();
}

/// The value of a textual IPv6 address: eight groups in full, or fewer with
/// one `::` standing for the missing zero groups.
pub open spec fn spec_parse_ipv6(s: Seq<u8>) -> Option<u128> {
    match spec_find(s, seq![IPV6_COLON, IPV6_COLON], 0) {
        None => match spec_parse_groups(s, true) {
            Some(g) => if g.len() == 8 {
                Some(groups_val(g) as u128)
            } else {
                None
            },
            None => None,
        },
        Some(c) => if 0 <= c && c + 2 <= s.len() {
            match (
                spec_parse_groups(s.subrange(0, c), false),
                spec_parse_groups(s.subrange(c + 2, s.len() as int), true),
            ) {
                (Some(lg), Some(rg)) => if lg.len() + rg.len() <= 7 {
                    Some(
                        groups_val(
                            lg + Seq::new((8 - lg.len() - rg.len()) as nat, |i: int| 0u16) + rg,
                        ) as u128,
                    )
                } else {
                    None
                },
                _ => None,
            }
        } else {
            None
        },
    }
}

/// Parses a textual IPv6 address.
pub fn parse_ipv6(s: &Vec<u8>) -> (r: Option<u128>)
    ensures
        r == spec_parse_ipv6(s@),
{
    let n = s.len();
    let dcolon = ipv6_dcolon_vec();
    match find_sub(s, &dcolon, 0) {
        None => {
            match parse_groups(s, true) {
                Some(g) => {
                    if g.len() == 8 {
                        proof {
                            lemma_groups_val_bound(g@);
                        }
                        Some(groups_to_u128(&g))
                    } else {
                        None
                    }
                },
                None => None,
            }
        },
        Some(c) => {
            proof {
                lemma_find_props(s@, seq![IPV6_COLON, IPV6_COLON], 0);
            }
            let left = sub_vec(s, 0, c);
            let right = sub_vec(s, c + 2, n);
            let lg: Vec<u16> = match parse_groups(&left, false) {
                Some(g) => g,
                None => {
                    return None;
                },
            };
            let rg: Vec<u16> = match parse_groups(&right, true) {
                Some(g) => g,
                None => {
                    return None;
                },
            };
            if lg.len() > 7 || rg.len() > 7 - lg.len() {
                return None;
            }
            let mut all: Vec<u16> = lg;
            let zeros = 8 - all.len() - rg.len();
            let mut k: usize = 0;
            let ghost lgv = all@;
            while k < zeros
                invariant
                    k <= zeros,
                    all@ == lgv + Seq::new(k as nat, |i: int| 0u16),
                decreases zeros - k,
            {
                all.push(0);
                proof {
                    assert(all@ =~= lgv + Seq::new((k + 1) as nat, |i: int| 0u16));
                }
                k = k + 1;
            }
            let mut j: usize = 0;
            let ghost mid = all@;
            while j < rg.len()
                invariant
                    j <= rg@.len(),
                    all@ == mid + rg@.subrange(0, j as int),
                decreases rg@.len() - j,
            {
                all.push(rg[j]);
                proof {
                    assert(all@ =~= mid + rg@.subrange(0, j + 1));
                }
                j = j + 1;
            }
            proof {
                assert(rg@.subrange(0, rg@.len() as int) =~= rg@);
                assert(all@ =~= lgv + Seq::new((8 - lgv.len() - rg@.len()) as nat, |i: int| 0u16)
                    + rg@);
                assert(all@.len() == 8);
                lemma_groups_val_bound(all@);
            }
            Some(groups_to_u128(&all))
        },
    }
}

/// Combines eight groups into the 128-bit address value.
fn groups_to_u128(g: &Vec<u16>) -> (r: u128)
    requires
        g@.len() == 8,
    ensures
        r as nat == groups_val(g@),
{
    let mut acc: u128 = 0;
    let mut i: usize = 0;
    proof {
        assert(g@.subrange(0, 0) =~= Seq::<u16>::empty());
    }
    while i < 8
        invariant
            i <= 8,
            g@.len() == 8,
            acc as nat == groups_val(g@.subrange(0, i as int)),
        decreases 8 - i,
    {
        proof {
            assert(g@.subrange(0, i + 1).drop_last() =~= g@.subrange(0, i as int));
            lemma_groups_val_pow(g@.subrange(0, i as int));
            crate::codec::lemma_pow256_mono(2 * (i as nat), 14);
            crate::codec::lemma_pow256_concrete();
        }
        acc = acc * 0x10000 + (g[i] as u128);
        i = i + 1;
    }
    proof {
        assert(g@.subrange(0, 8) =~= g@);
    }
    acc
}

} // verus!
