//! Decimal formatting and parsing of unsigned and signed integers, proved
//! against recursive specifications of the digit strings.
use vstd::prelude::*;

verus! {

pub const ZERO_DIGIT: u8 = 48;

pub const MINUS: u8 = 45;

/// The ASCII decimal digits of `n`, most significant first.
pub open spec fn spec_dec(n: nat) -> Seq<u8>
    decreases n,
{
    if n < 10 {
        seq![(ZERO_DIGIT + n) as u8]
    } else {
        spec_dec(n / 10) + seq![(ZERO_DIGIT + n % 10) as u8]
    }
}

/// The ASCII decimal digits of `n`, with a leading minus sign when negative.
pub open spec fn spec_dec_int(n: int) -> Seq<u8> {
    if n < 0 {
        seq![MINUS] + spec_dec((-n) as nat)
    } else {
        spec_dec(n as nat)
    }
}

pub open spec fn is_digit(b: u8) -> bool {
    ZERO_DIGIT <= b <= ZERO_DIGIT + 9
}

pub open spec fn all_digits(s: Seq<u8>) -> bool {
    forall|i: int| 0 <= i < s.len() ==> is_digit(#[trigger] s[i])
}

/// The numeric value of a digit string, most significant digit first.
pub open spec fn spec_digits_val(s: Seq<u8>) -> int
    decreases s.len(),
{
    if s.len() == 0 {
        0
    } else {
        spec_digits_val(s.drop_last()) * 10 + (s.last() - ZERO_DIGIT)
    }
}

/// What `str::parse::<u64>` accepts, leading zeros included, with no sign:
/// one or more digits whose value fits the type.
pub open spec fn spec_parse_u64(s: Seq<u8>) -> Option<u64> {
    if s.len() > 0 && all_digits(s) && spec_digits_val(s) <= u64::MAX {
        Some(spec_digits_val(s) as u64)
    } else {
        None
    }
}

/// What `str::parse::<usize>` accepts.
pub open spec fn spec_parse_usize(s: Seq<u8>) -> Option<usize> {
    if s.len() > 0 && all_digits(s) && spec_digits_val(s) <= usize::MAX {
        Some(spec_digits_val(s) as usize)
    } else {
        None
    }
}

pub proof fn lemma_digits_val_nonneg(s: Seq<u8>)
    requires
        all_digits(s),
    ensures
        spec_digits_val(s) >= 0,
    decreases s.len(),
{
    if s.len() > 0 {
        assert(all_digits(s.drop_last())) by {
            assert(forall|i: int|
                0 <= i < s.len() - 1 ==> #[trigger] s.drop_last()[i] == s[i]);
        }
        lemma_digits_val_nonneg(s.drop_last());
    }
}

/// A longer digit string never has a smaller value than its prefix.
pub proof fn lemma_digits_val_prefix_le(s: Seq<u8>, k: int)
    requires
        all_digits(s),
        0 <= k <= s.len(),
    ensures
        spec_digits_val(s.subrange(0, k)) <= spec_digits_val(s),
    decreases s.len() - k,
{
    if k < s.len() {
        lemma_digits_val_prefix_le(s, k + 1);
        let p = s.subrange(0, k);
        let q = s.subrange(0, k + 1);
        assert(q.drop_last() =~= p);
        assert(all_digits(p)) by {
            assert(forall|i: int| 0 <= i < k ==> #[trigger] p[i] == s[i]);
        }
        lemma_digits_val_nonneg(p);
        assert(spec_digits_val(q) == spec_digits_val(p) * 10 + (s[k] - ZERO_DIGIT));
        assert(spec_digits_val(p) * 10 >= spec_digits_val(p));
    } else {
        assert(s.subrange(0, k) =~= s);
    }
}

/// Formats `n` in decimal.
pub fn format_u64(n: u64) -> (r: Vec<u8>)
    ensures
        r@ == spec_dec(n as nat),
{
    let mut rev: Vec<u8> = Vec::new();
    let mut m: u64 = n;
    while m >= 10
        invariant
            spec_dec(n as nat) == spec_dec(m as nat) + rev@.reverse(),
        decreases m,
    {
        let d: u8 = ZERO_DIGIT + (m % 10) as u8;
        let ghost old_rev = rev@;
        rev.push(d);
        proof {
            assert(rev@.reverse() =~= seq![d] + old_rev.reverse());
            assert(spec_dec(m as nat) == spec_dec((m as nat) / 10) + seq![d]);
            assert(spec_dec(m as nat) + old_rev.reverse() =~= spec_dec((m as nat) / 10)
                + rev@.reverse());
        }
        m = m / 10;
    }
    let d: u8 = ZERO_DIGIT + m as u8;
    let ghost old_rev = rev@;
    rev.push(d);
    proof {
        assert(rev@.reverse() =~= seq![d] + old_rev.reverse());
        assert(spec_dec(m as nat) =~= seq![d]);
        assert(spec_dec(n as nat) =~= rev@.reverse());
    }
    // Reverse the collected digits.
    let mut r: Vec<u8> = Vec::new();
    let mut i: usize = rev.len();
    while i > 0
        invariant
            i <= rev@.len(),
            r@.len() == rev@.len() - i,
            forall|j: int| 0 <= j < r@.len() ==> r@[j] == rev@[rev@.len() - 1 - j],
        decreases i,
    {
        i = i - 1;
        r.push(rev[i]);
    }
    proof {
        assert(r@ =~= rev@.reverse());
    }
    r
}

/// Formats `n` in decimal.
pub fn format_usize(n: usize) -> (r: Vec<u8>)
    ensures
        r@ == spec_dec(n as nat),
{
    format_u64(n as u64)
}

/// Formats `n` in decimal with a minus sign when negative.
pub fn format_i64(n: i64) -> (r: Vec<u8>)
    ensures
        r@ == spec_dec_int(n as int),
{
    if n >= 0 {
        format_u64(n as u64)
    } else {
        let mag: u64 = if n == i64::MIN {
            9223372036854775808u64
        } else {
            (-n) as u64
        };
        assert(mag as int == -(n as int));
        let mut r = format_u64(mag);
        let ghost digits = r@;
        r.insert(0, MINUS);
        proof {
            assert(r@ =~= seq![MINUS] + digits);
        }
        r
    }
}

/// Parses a decimal `u64`; `None` on an empty string, a non-digit, or overflow.
pub fn parse_u64(s: &Vec<u8>) -> (r: Option<u64>)
    ensures
        r == spec_parse_u64(s@),
{
    if s.len() == 0 {
        return None;
    }
    let mut acc: u64 = 0;
    let mut i: usize = 0;
    while i < s.len()
        invariant
            0 < s@.len() <= usize::MAX,
            i <= s@.len(),
            all_digits(s@.subrange(0, i as int)),
            acc == spec_digits_val(s@.subrange(0, i as int)),
        decreases s@.len() - i,
    {
        let b = s[i];
        if b < ZERO_DIGIT || b > ZERO_DIGIT + 9 {
            assert(!all_digits(s@));
            return None;
        }
        let d: u64 = (b - ZERO_DIGIT) as u64;
        proof {
            assert(s@.subrange(0, i + 1).drop_last() =~= s@.subrange(0, i as int));
            assert(all_digits(s@.subrange(0, i + 1)));
        }
        if acc > (u64::MAX - d) / 10 {
            proof {
                vstd::arithmetic::div_mod::lemma_fundamental_div_mod((u64::MAX - d) as int, 10);
                assert(acc * 10 >= (acc as int - 1) * 10 + 10);
                assert(acc * 10 + d > u64::MAX);
                if all_digits(s@) {
                    lemma_digits_val_prefix_le(s@, i + 1);
                    assert(spec_digits_val(s@) > u64::MAX);
                }
            }
            return None;
        }
        acc = acc * 10 + d;
        i = i + 1;
    }
    proof {
        assert(s@.subrange(0, s@.len() as int) =~= s@);
    }
    Some(acc)
}

/// Parses a decimal `usize`; `None` on an empty string, a non-digit, or overflow.
pub fn parse_usize(s: &Vec<u8>) -> (r: Option<usize>)
    ensures
        r == spec_parse_usize(s@),
{
    proof {
        if all_digits(s@) {
            lemma_digits_val_nonneg(s@);
        }
    }
    match parse_u64(s) {
        None => {
            proof {
                if s@.len() > 0 && all_digits(s@) {
                    assert(spec_digits_val(s@) > u64::MAX);
                }
            }
            None
        },
        Some(v) => {
            if v <= usize::MAX as u64 {
                Some(v as usize)
            } else {
                None
            }
        },
    }
}

} // verus!

